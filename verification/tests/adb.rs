use andpull::adb::client::{
    parse_ls_line, quote_shell, sole_device, AdbClient, DeviceInfo, RemoteEntry,
};
use andpull::adb::shell::ShellExecutor;
use andpull::error::{check_disk_space_for, is_permission_denied, AppError, DISK_HEADROOM};

#[test]
fn devices_are_parsed_from_listing() {
    let out = "List of devices attached\n\
               ABC123 device usb:1-1 product:p model:Pixel_7 device:d\n\
               192.168.1.5:5555 unauthorized\n\
               \n";
    let devices = AdbClient::list_devices(out);
    assert_eq!(devices.len(), 2);
    assert_eq!(devices[0].serial, "ABC123");
    assert_eq!(devices[0].state, "device");
    assert_eq!(devices[0].model, "Pixel_7");
    assert_eq!(devices[0].transport, "usb");
    assert_eq!(devices[1].model, "Unknown");
    assert_eq!(devices[1].transport, "wifi");
}

#[test]
fn selected_device_serial() {
    let mut c = AdbClient::new();
    assert!(matches!(c.device_serial(), Err(AppError::NoDevice)));
    c.select_device(DeviceInfo {
        serial: "S1".to_string(),
        state: "device".to_string(),
        model: "m".to_string(),
        transport: "usb".to_string(),
    });
    assert_eq!(c.device_serial().unwrap(), "S1");
}

#[test]
fn ls_lines_are_parsed() {
    let e = parse_ls_line("drwxrwx--x 3 root sdcard_rw 4096 2024-01-15 10:30 DCIM", "/sdcard").unwrap();
    assert_eq!(e.name, "DCIM");
    assert_eq!(e.path, "/sdcard/DCIM");
    assert!(e.is_dir);
    assert_eq!(e.size, 4096);
    let f = parse_ls_line(
        "-rw-rw---- 1 root sdcard_rw 12345 2024-01-15 10:30 My Photo.jpg",
        "/sdcard/DCIM/",
    )
    .unwrap();
    assert_eq!(f.name, "My Photo.jpg");
    assert_eq!(f.path, "/sdcard/DCIM/My Photo.jpg");
    assert!(!f.is_dir);
    assert_eq!(f.size, 12345);
    assert!(parse_ls_line("lrwxrwxrwx 1 root root 21 2024-01-15 10:30 sdcard -> /x", "/").is_none());
    assert!(parse_ls_line("total 48", "/").is_none());
}

#[test]
fn directory_listing_and_commands() {
    let listing = "drwxrwx--x 3 root sdcard_rw 4096 2024-01-15 10:30 DCIM\n\
                   -rw-rw---- 1 root sdcard_rw 10 2024-01-15 10:30 a.txt\n";
    let es = AdbClient::list_dir("/sdcard", listing);
    assert_eq!(es.len(), 2);
    assert_eq!(es[1].path, "/sdcard/a.txt");
    assert_eq!(
        AdbClient::list_dir_command("/sdcard"),
        "ls -la '/sdcard/' 2>/dev/null | tail -n +2"
    );
    assert_eq!(AdbClient::rm_command("/sdcard/x"), "rm -rf '/sdcard/x'");
    assert!(AdbClient::rm_remote(Ok(String::new())).is_ok());
    assert!(matches!(AdbClient::rm_remote(Err(AppError::NoDevice)), Err(AppError::NoDevice)));
}

#[test]
fn stat_output_is_parsed() {
    let e = AdbClient::stat("/sdcard/a.jpg", "regular file|2048|1700000000|/sdcard/a.jpg\n").unwrap();
    assert_eq!(e.size, 2048);
    assert_eq!(e.mtime, 1700000000);
    assert!(!e.is_dir);
    assert!(matches!(
        AdbClient::stat("/sdcard/none", ""),
        Err(AppError::NotFound { .. })
    ));
}

#[test]
fn shell_quoting() {
    assert_eq!(quote_shell("abc"), "'abc'");
    assert_eq!(quote_shell("it's"), "'it'\\''s'");
}

#[test]
fn shell_answers_are_interpreted() {
    assert!(ShellExecutor::has_tar(&Ok("/system/bin/tar\n".to_string())));
    assert!(!ShellExecutor::has_tar(&Ok("  \n".to_string())));
    assert!(!ShellExecutor::has_tar(&Err(AppError::NoDevice)));
    assert_eq!(ShellExecutor::dir_size("/x", Ok(" 1234\n".to_string())).unwrap(), 1234);
    assert!(matches!(
        ShellExecutor::dir_size("/x", Ok("oops".to_string())),
        Err(AppError::Protocol(_))
    ));
    assert_eq!(ShellExecutor::file_count(Ok("7\n".to_string())).unwrap(), 7);
    assert_eq!(ShellExecutor::available_space(Ok("100\n".to_string())).unwrap(), 102400);
}

#[test]
fn media_directories_are_probed() {
    let candidates = ShellExecutor::media_candidates();
    assert_eq!(candidates[0], "/sdcard/DCIM");
    let mut probes = vec![Ok(String::new()); candidates.len()];
    probes[0] = Ok("yes\n".to_string());
    probes[3] = Ok("yes".to_string());
    let found = ShellExecutor::media_directories(&probes);
    assert_eq!(found, vec!["/sdcard/DCIM".to_string(), candidates[3].clone()]);
}

#[test]
fn disk_space_rules() {
    assert!(check_disk_space_for(DISK_HEADROOM + 10, 10).is_ok());
    match check_disk_space_for(DISK_HEADROOM, 10) {
        Err(AppError::DiskFull { needed, available }) => {
            assert_eq!(needed, 10 + DISK_HEADROOM);
            assert_eq!(available, DISK_HEADROOM);
        }
        other => panic!("unexpected: {other:?}"),
    }
    // The needed space saturates at u64::MAX.
    assert!(check_disk_space_for(u64::MAX - 1, u64::MAX).is_err());
    assert!(check_disk_space_for(u64::MAX, u64::MAX).is_ok());
}

#[test]
fn permission_errors_are_recognized() {
    assert!(is_permission_denied(&AppError::Permission { path: "/x".to_string() }));
    assert!(!is_permission_denied(&AppError::NoDevice));
}

fn device_info(serial: &str) -> DeviceInfo {
    DeviceInfo {
        serial: serial.to_string(),
        state: "device".to_string(),
        model: "Pixel".to_string(),
        transport: "usb".to_string(),
    }
}

#[test]
fn sole_device_needs_exactly_one() {
    assert_eq!(sole_device(vec![]).err(), Some(0));
    assert_eq!(sole_device(vec![device_info("a"), device_info("b")]).err(), Some(2));
    assert_eq!(sole_device(vec![device_info("a")]).map(|d| d.serial).ok(), Some("a".to_string()));
}

#[test]
fn rooted_commands_and_answers() {
    assert_eq!(AdbClient::rooted_command("ls -1ap '/data'"), "su -c 'ls -1ap '\\''/data'\\'''");
    assert!(AdbClient::su_granted(&Ok("uid=0(root) gid=0(root)".to_string())));
    assert!(!AdbClient::su_granted(&Ok("uid=2000(shell)".to_string())));
    assert!(!AdbClient::su_granted(&Err(AppError::Protocol("su: not found".into()))));
    assert_eq!(
        AdbClient::rooted_size_command("/sdcard/a.jpg"),
        "su -c 'stat -c %s '\\''/sdcard/a.jpg'\\'''"
    );
    assert_eq!(AdbClient::rooted_size("/sdcard/a.jpg", Ok(" 1234\n".to_string())).ok(), Some(1234));
    match AdbClient::rooted_size("/sdcard/a.jpg", Ok("stat: denied".to_string())) {
        Err(AppError::Protocol(m)) => assert_eq!(m, "Could not read size of /sdcard/a.jpg"),
        other => panic!("unexpected {other:?}"),
    }
}

#[test]
fn rooted_listing_only_after_empty_or_failed_plain_listing() {
    assert!(AdbClient::needs_rooted_listing(&Ok(vec![])));
    assert!(AdbClient::needs_rooted_listing(&Err(AppError::Permission { path: "/x".into() })));
    let entry = RemoteEntry {
        name: "photo.jpg".to_string(),
        path: "/sdcard/photo.jpg".to_string(),
        is_dir: false,
        size: 10,
        mtime: 0,
    };
    assert!(!AdbClient::needs_rooted_listing(&Ok(vec![entry])));
}

#[test]
fn text_tail_keeps_last_bytes_on_char_boundary() {
    assert_eq!(andpull::text::text_tail("abcdef", 4), "cdef");
    assert_eq!(andpull::text::text_tail("abc", 512), "abc");
    // "é" takes two bytes: a three-byte budget cannot split it.
    assert_eq!(andpull::text::text_tail("aéé", 3), "é");
    assert_eq!(andpull::text::text_tail("", 5), "");
}
