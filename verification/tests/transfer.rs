use andpull::error::AppError;
use andpull::scanner::tree::FileNode;
use andpull::state::resume::StateManager;
use andpull::transfer::hash::FileHasher;
use andpull::transfer::plan::{classify, local_target, plan_jobs, standalone_files, FileAction};
use andpull::transfer::pool::{push_job, remote_dir_command, FileJob, WorkerPool};
use andpull::transfer::recv::RecvPuller;
use andpull::transfer::tar::{record_tar_entry, TarEntryMeta, TarHeader, TarPullStats, TarPuller};
use andpull::adb::client::DeviceInfo;

fn header(name: &[u8], size: usize, flag: u8) -> [u8; 512] {
    let mut h = [0u8; 512];
    let n = name.len().min(100);
    h[..n].copy_from_slice(&name[..n]);
    h[100..108].copy_from_slice(b"0000644\0");
    let size_oct = format!("{:011o}\0", size);
    h[124..136].copy_from_slice(size_oct.as_bytes());
    h[156] = flag;
    h[257..263].copy_from_slice(b"ustar\0");
    h
}

#[test]
fn streaming_extract_empty_archive() {
    let tar_data = vec![0u8; 1024];
    let mut block = [0u8; 512];
    block.copy_from_slice(&tar_data[..512]);
    assert!(matches!(TarPuller::parse_header(&block), TarHeader::End));
}

#[test]
fn streaming_extract_zero_size_file() {
    match TarPuller::parse_header(&header(b"empty.txt", 0, b'0')) {
        TarHeader::Entry(meta) => {
            assert_eq!(meta.name, "empty.txt");
            assert_eq!(meta.size, 0);
        }
        other => panic!("unexpected header: {other:?}"),
    }
}

#[test]
fn header_of_regular_file() {
    match TarPuller::parse_header(&header(b"./hello.txt", 11, b'0')) {
        TarHeader::Entry(meta) => {
            assert_eq!(meta.name, "hello.txt");
            assert_eq!(meta.size, 11);
            assert!(!meta.is_dir);
        }
        other => panic!("unexpected header: {other:?}"),
    }
}

#[test]
fn header_of_directory_and_nested_names() {
    match TarPuller::parse_header(&header(b"./sub/", 0, b'5')) {
        TarHeader::Entry(meta) => {
            assert_eq!(meta.name, "sub/");
            assert!(meta.is_dir);
        }
        other => panic!("unexpected header: {other:?}"),
    }
    match TarPuller::parse_header(&header(b"subdir/nested/file.txt", 4, b'0')) {
        TarHeader::Entry(meta) => assert_eq!(meta.name, "subdir/nested/file.txt"),
        other => panic!("unexpected header: {other:?}"),
    }
}

#[test]
fn header_with_ustar_prefix() {
    let mut h = header(b"file.jpg", 3, b'0');
    h[345..352].copy_from_slice(b"./a/b/c");
    match TarPuller::parse_header(&h) {
        TarHeader::Entry(meta) => assert_eq!(meta.name, "a/b/c/file.jpg"),
        other => panic!("unexpected header: {other:?}"),
    }
}

#[test]
fn header_of_gnu_long_name() {
    let long_name = format!(".trashed-1787713854-{}.jpg", "A".repeat(80));
    let h = header(b"././@LongLink", long_name.len(), b'L');
    match TarPuller::parse_header(&h) {
        TarHeader::LongName { size } => assert_eq!(size as usize, long_name.len()),
        other => panic!("unexpected header: {other:?}"),
    }
    let mut data = long_name.as_bytes().to_vec();
    data.push(0);
    let meta = TarPuller::long_name_entry(&data, &header(b"x", 13, b'0'));
    assert_eq!(meta.name, long_name);
    assert_eq!(meta.size, 13);
    assert!(!meta.is_dir);
}

#[test]
fn header_with_garbage_size_reads_zero() {
    let mut h = header(b"a.bin", 0, b'0');
    h[124..136].copy_from_slice(b"zzzzzzzzzzz\0");
    match TarPuller::parse_header(&h) {
        TarHeader::Entry(meta) => assert_eq!(meta.size, 0),
        other => panic!("unexpected header: {other:?}"),
    }
}

#[test]
fn padding_reaches_block_boundary() {
    assert_eq!(TarPuller::padding(0), 0);
    assert_eq!(TarPuller::padding(1), 511);
    assert_eq!(TarPuller::padding(512), 0);
    assert_eq!(TarPuller::padding(513), 511);
    assert_eq!(TarPuller::padding(11), 501);
}

#[test]
fn entry_paths_and_commands() {
    assert_eq!(TarPuller::entry_remote_path("/sdcard/DCIM", "a.jpg"), "/sdcard/DCIM/a.jpg");
    assert_eq!(TarPuller::entry_remote_path("/sdcard/DCIM/", "a.jpg"), "/sdcard/DCIM/a.jpg");
    assert_eq!(
        TarPuller::stream_command("/sdcard/DCIM"),
        "cd '/sdcard/DCIM' && tar cf - . 2>/dev/null"
    );
    assert_eq!(
        TarPuller::rooted_stream_command("/data/x"),
        "su -c 'cd '/data/x' && tar cf - .'"
    );
}

#[test]
fn truncated_stream_is_an_error() {
    assert!(TarPuller::finish("/sdcard/x", true, "", 0, 0).is_ok());
    let ok = TarPuller::finish("/sdcard/x", true, "", 2, 30).unwrap();
    assert_eq!((ok.files_pulled, ok.bytes_transferred), (2, 30));
    match TarPuller::finish("/sdcard/x", true, "", 0, 30) {
        Err(AppError::Transfer { path, reason }) => {
            assert_eq!(path, "/sdcard/x");
            assert!(reason.starts_with("tar stream contained 30 bytes"));
        }
        other => panic!("unexpected: {other:?}"),
    }
}

#[test]
fn failed_device_exit_is_a_hard_error() {
    match TarPuller::finish("/sdcard/x", false, "exit status: 1", 3, 30) {
        Err(AppError::Transfer { path, reason }) => {
            assert_eq!(path, "/sdcard/x");
            assert_eq!(reason, "device tar exited with exit status: 1");
        }
        other => panic!("unexpected: {other:?}"),
    }
}

#[test]
fn tar_entries_are_counted_and_recorded() {
    let mut sm = StateManager::new("/sdcard/DCIM", "/backup");
    let stats = TarPullStats { files_pulled: 0, bytes_transferred: 0 };
    let a = TarEntryMeta { name: "a.jpg".to_string(), size: 10, is_dir: false };
    let b = TarEntryMeta { name: "sub/b.jpg".to_string(), size: 5, is_dir: false };
    let stats = record_tar_entry(&mut sm, stats, "/sdcard/DCIM", "/backup/DCIM", &a);
    let stats = record_tar_entry(&mut sm, stats, "/sdcard/DCIM/", "/backup/DCIM", &b);
    assert_eq!((stats.files_pulled, stats.bytes_transferred), (2, 15));
    assert!(sm.is_completed("/sdcard/DCIM/a.jpg"));
    assert!(sm.is_completed("/sdcard/DCIM/sub/b.jpg"));
    assert!(sm.is_unchanged("/sdcard/DCIM/a.jpg", 10, 0));
    assert!(!sm.is_unchanged("/sdcard/DCIM/a.jpg", 11, 0));
    assert_eq!(sm.state().synced_files[1].local_path, "/backup/DCIM/sub/b.jpg");
    assert_eq!(sm.get_sync_hash("/sdcard/DCIM/a.jpg"), None);
}

#[test]
fn local_targets_strip_sdcard() {
    assert_eq!(local_target("/backup", "/sdcard/DCIM/a.jpg"), "/backup/DCIM/a.jpg");
    assert_eq!(local_target("/backup/", "/sdcard/DCIM/a.jpg"), "/backup/DCIM/a.jpg");
    assert_eq!(local_target("", "/sdcard/a.jpg"), "a.jpg");
    // A path outside /sdcard/ stays absolute, as Path::join does.
    assert_eq!(local_target("/backup", "/storage/X/a.jpg"), "/storage/X/a.jpg");
}

fn file(path: &str, size: u64) -> FileNode {
    let mut n = FileNode::root(path);
    n.is_dir = false;
    n.size = size;
    n.selected = true;
    n
}

#[test]
fn jobs_skip_resumed_and_unchanged_files() {
    let mut sm = StateManager::new("/sdcard", "/backup");
    sm.mark_file_completed("/sdcard/a.jpg", 1, 0, None);
    sm.update_sync_record("/sdcard/b.jpg", 2, "/backup/b.jpg", None, 0);
    let a = file("/sdcard/a.jpg", 1);
    let b = file("/sdcard/b.jpg", 2);
    let c = file("/sdcard/c.jpg", 3);
    let b2 = file("/sdcard/b.jpg", 5);
    assert_eq!(classify(&sm, "/sdcard/a.jpg", 1, 0), FileAction::Resumed);
    assert_eq!(classify(&sm, "/sdcard/b.jpg", 2, 0), FileAction::Unchanged);
    assert_eq!(classify(&sm, "/sdcard/b.jpg", 2, 9), FileAction::Pull);
    assert_eq!(classify(&sm, "/sdcard/b.jpg", 5, 0), FileAction::Pull);
    let files = vec![&a, &b, &c, &b2];
    let (actions, jobs) = plan_jobs(&sm, &files, "/backup");
    assert_eq!(
        actions,
        vec![FileAction::Resumed, FileAction::Unchanged, FileAction::Pull, FileAction::Pull]
    );
    assert_eq!(jobs.len(), 2);
    assert_eq!(jobs[0].remote_path, "/sdcard/c.jpg");
    assert_eq!(jobs[0].local_path, "/backup/c.jpg");
    assert_eq!(jobs[0].name, "c.jpg");
    assert_eq!(jobs[1].size, 5);
}

#[test]
fn standalone_files_exclude_selected_directories() {
    let dir = FileNode::root("/sdcard/DCIM");
    let in_dir = file("/sdcard/DCIM/a.jpg", 1);
    let outside = file("/sdcard/Download/b.pdf", 2);
    let files = vec![&in_dir, &outside];
    let dirs = vec![&dir];
    let alone = standalone_files(&files, &dirs);
    assert_eq!(alone.len(), 1);
    assert_eq!(alone[0].path, "/sdcard/Download/b.pdf");
}

#[test]
fn worker_pool_sizes() {
    assert_eq!(WorkerPool::new(0).worker_count, 1);
    assert_eq!(WorkerPool::new(8).worker_count, 8);
    let mut d = DeviceInfo {
        serial: "192.168.1.2:5555".to_string(),
        state: "device".to_string(),
        model: "x".to_string(),
        transport: "wifi".to_string(),
    };
    assert_eq!(WorkerPool::auto_detect(&d).worker_count, 2);
    d.transport = "usb".to_string();
    assert_eq!(WorkerPool::auto_detect(&d).worker_count, 8);
    assert!(WorkerPool::autosave_due(50));
    assert!(!WorkerPool::autosave_due(51));
}

#[test]
fn job_outcomes_are_recorded() {
    let mut sm = StateManager::new("/sdcard", "/backup");
    let job = FileJob {
        remote_path: "/sdcard/a.jpg".to_string(),
        local_path: "/backup/a.jpg".to_string(),
        name: "a.jpg".to_string(),
        size: 9,
        mtime: 1,
    };
    WorkerPool::record_outcome(&mut sm, &job, Err("boom".to_string()), None);
    assert_eq!(sm.failed_attempts("/sdcard/a.jpg"), Some(1));
    assert!(!sm.is_completed("/sdcard/a.jpg"));
    WorkerPool::record_outcome(&mut sm, &job, Ok(9), Some("ff".to_string()));
    assert!(sm.is_completed("/sdcard/a.jpg"));
    assert!(sm.is_unchanged("/sdcard/a.jpg", 9, 1));
    assert!(!sm.is_unchanged("/sdcard/a.jpg", 9, 2));
    assert_eq!(sm.get_sync_hash("/sdcard/a.jpg"), Some("ff"));
    assert_eq!(sm.failed_attempts("/sdcard/a.jpg"), None);
}

#[test]
fn rooted_fallback_rules() {
    let denied = AppError::Permission { path: "/x".to_string() };
    assert!(RecvPuller::should_try_rooted(&denied, true));
    assert!(!RecvPuller::should_try_rooted(&denied, false));
    assert!(!RecvPuller::should_try_rooted(&AppError::NoDevice, true));
    assert!(RecvPuller::needs_pull(None, 5));
    assert!(RecvPuller::needs_pull(Some(4), 5));
    assert!(!RecvPuller::needs_pull(Some(5), 5));
    assert_eq!(RecvPuller::cat_command("/sdcard/a b"), "su -c 'cat '/sdcard/a b''");
    assert!(RecvPuller::check_size("/x", 3, 3).is_ok());
    match RecvPuller::check_size("/x", 10, 7) {
        Err(AppError::Transfer { path, reason }) => {
            assert_eq!(path, "/x");
            assert_eq!(reason, "size mismatch: expected 10, got 7");
        }
        other => panic!("unexpected: {other:?}"),
    }
}

#[test]
fn test_hash_empty_file() {
    let h = FileHasher::new();
    let hash = h.hex_digest();
    assert!(!hash.is_empty());
    assert_eq!(hash.len(), 32);
    assert_eq!(hash, "99aa06d3014798d86001c324468d497f");
}

#[test]
fn test_hash_deterministic() {
    let mut a = FileHasher::new();
    a.update(b"hello andpull world");
    let mut b = FileHasher::new();
    b.update(b"hello ");
    b.update(b"andpull world");
    assert_eq!(a.hex_digest(), b.hex_digest());
}

#[test]
fn test_hash_different_content() {
    let mut a = FileHasher::new();
    a.update(b"content A");
    let mut b = FileHasher::new();
    b.update(b"content B");
    assert_ne!(a.hex_digest(), b.hex_digest());
}

#[test]
fn test_hash_large_file() {
    let pattern: Vec<u8> = (0..=255).collect();
    let mut a = FileHasher::new();
    let mut b = FileHasher::new();
    for _ in 0..1024 {
        a.update(&pattern);
    }
    let all: Vec<u8> = pattern.iter().cycle().take(256 * 1024).cloned().collect();
    for chunk in all.chunks(64 * 1024) {
        b.update(chunk);
    }
    let ha = a.hex_digest();
    assert_eq!(ha.len(), 32);
    assert_eq!(ha, b.hex_digest());
}

#[test]
fn remote_dir_command_quotes_parent_directory() {
    assert_eq!(
        remote_dir_command("/sdcard/DCIM/a.jpg"),
        Some("mkdir -p '/sdcard/DCIM'".to_string())
    );
    assert_eq!(remote_dir_command("/a.jpg"), Some("mkdir -p ''".to_string()));
    assert_eq!(remote_dir_command("a.jpg"), None);
}

#[test]
fn push_job_targets_destination_directory() {
    let job = FileJob {
        remote_path: "/home/me/pics/a.jpg".to_string(),
        local_path: "/backup/pics/a.jpg".to_string(),
        name: "a.jpg".to_string(),
        size: 12,
        mtime: 7,
    };
    let pushed = push_job(job, "/sdcard/Pictures//");
    assert_eq!(pushed.remote_path, "/sdcard/Pictures/a.jpg");
    assert_eq!(pushed.local_path, "/home/me/pics/a.jpg");
    assert_eq!(pushed.name, "a.jpg");
    assert_eq!((pushed.size, pushed.mtime), (12, 7));
}
