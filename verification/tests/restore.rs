use andpull::error::AppError;
use andpull::profile::restore::{
    appdata_restore_step, backup_source_dir, df_avail_fits, parse_df_avail, parse_pm_path, pm_path_command,
    preflight_restore, remote_parent, restore_order, restore_target, AppdataAction,
    AppdataEvent,
};
use andpull::profile::{builtin_profiles, ProfileSpec, SourceSpec};

#[test]
fn pm_path_installed_output_parses_true() {
    assert!(parse_pm_path("package:/data/app/com.whatsapp-base.apk\n"));
}

#[test]
fn pm_path_empty_output_parses_false() {
    assert!(!parse_pm_path(""));
    assert!(!parse_pm_path("\n"));
}

#[test]
fn pm_path_bare_prefix_without_path_is_not_installed() {
    assert!(!parse_pm_path("package:\n"));
}

#[test]
fn df_toybox_header_parses_avail_column() {
    let out = "Filesystem     1K-blocks     Used Available Use% Mounted on\n\
               /dev/fuse    102396636 52428800  49967836  52% /storage/emulated\n";
    assert_eq!(parse_df_avail(out), 49_967_836 * 1024);
}

#[test]
fn df_garbage_returns_zero() {
    assert_eq!(parse_df_avail("nope"), 0);
    assert_eq!(parse_df_avail(""), 0);
}

#[test]
fn df_single_line_still_finds_column() {
    let out = "/dev/fuse 1024 512 512 50% /sdcard\n";
    assert_eq!(parse_df_avail(out), 512 * 1024);
}

#[test]
fn remote_parent_extracts_directory() {
    assert_eq!(
        remote_parent("/sdcard/DCIM/a/b.jpg").as_deref(),
        Some("/sdcard/DCIM/a")
    );
    assert_eq!(remote_parent("/file.jpg"), None);
}

#[test]
fn df_overflowing_count_is_detected() {
    assert!(df_avail_fits("/dev/fuse 1 1 512 50% /sdcard\n"));
    assert!(!df_avail_fits("/dev/fuse 1 1 18446744073709551615 50% /sdcard\n"));
}

#[test]
fn pm_path_command_quotes_package() {
    assert_eq!(pm_path_command("com.whatsapp"), "pm path 'com.whatsapp'");
    assert_eq!(pm_path_command("a'b"), "pm path 'a'\\''b'");
}

#[test]
fn preflight_reports_installed_and_free_space() {
    let pm: Result<String, AppError> = Ok("package:/data/app/x/base.apk\n".to_string());
    let df: Result<String, AppError> = Ok("/dev/fuse 1024 512 512 50% /sdcard\n".to_string());
    let r = preflight_restore("com.whatsapp", &pm, &df, true);
    assert!(r.package_installed);
    assert_eq!(r.free_bytes, 512 * 1024);
    assert!(r.warnings.is_empty());
}

#[test]
fn preflight_warns_without_package_or_root() {
    let pm: Result<String, AppError> = Err(AppError::NoDevice);
    let df: Result<String, AppError> = Err(AppError::NoDevice);
    let r = preflight_restore("com.whatsapp", &pm, &df, false);
    assert!(!r.package_installed);
    assert_eq!(r.free_bytes, 0);
    assert_eq!(
        r.warnings,
        vec![
            "package com.whatsapp does not appear to be installed; media restore will still proceed"
                .to_string(),
            "root (su) unavailable on device: app-data restore will be skipped even if requested"
                .to_string(),
        ]
    );
}

fn spec(name: &str, priority: u8) -> ProfileSpec {
    ProfileSpec {
        name: name.to_string(),
        priority,
        requires_root: false,
        sources: vec![SourceSpec {
            device_path: "/sdcard/x".to_string(),
            alt_paths: vec![],
            recursive: false,
            extensions: None,
        }],
    }
}

#[test]
fn restore_runs_highest_priority_last() {
    let profiles = vec![spec("a", 0), spec("b", 5), spec("c", 5), spec("d", 9)];
    let order: Vec<&str> = restore_order(&profiles).iter().map(|p| p.name.as_str()).collect();
    assert_eq!(order, vec!["d", "b", "c", "a"]);
    let builtins = builtin_profiles();
    let order: Vec<&str> = restore_order(&builtins).iter().map(|p| p.name.as_str()).collect();
    assert_eq!(order.last(), Some(&"whatsapp"));
}

fn finished(a: AppdataAction) -> (String, bool, Option<String>, u64) {
    match a {
        AppdataAction::Finish(o) => (o.name, o.success, o.error, o.files_transferred),
        other => panic!("expected an outcome, got {other:?}"),
    }
}

#[test]
fn appdata_restore_skips_empty_archive() {
    let out = finished(appdata_restore_step(AppdataEvent::ArchiveRead(Ok(0))));
    assert_eq!(out, ("appdata:restore".to_string(), true, None, 0));
}

#[test]
fn appdata_restore_reports_unreadable_archive() {
    let out = finished(appdata_restore_step(AppdataEvent::ArchiveRead(Err("cannot read x".into()))));
    assert_eq!(out, ("appdata:restore".to_string(), false, Some("cannot read x".to_string()), 0));
}

#[test]
fn appdata_restore_needs_root_then_untars() {
    assert!(matches!(
        appdata_restore_step(AppdataEvent::ArchiveRead(Ok(10240))),
        AppdataAction::CheckRoot
    ));
    assert!(matches!(appdata_restore_step(AppdataEvent::RootChecked(true)), AppdataAction::Untar));
    let denied = finished(appdata_restore_step(AppdataEvent::RootChecked(false)));
    assert_eq!(denied.2, Some("su unavailable; cannot restore app-data".to_string()));
    assert!(!denied.1);
    assert!(finished(appdata_restore_step(AppdataEvent::Untarred(Ok(())))).1);
    let failed = finished(appdata_restore_step(AppdataEvent::Untarred(Err("tar exited 2".into()))));
    assert_eq!((failed.1, failed.2), (false, Some("tar exited 2".to_string())));
}

#[test]
fn backup_source_dir_keeps_device_layout() {
    assert_eq!(
        backup_source_dir("/mnt/bk", "/sdcard/DCIM"),
        "/mnt/bk/sdcard/DCIM".to_string()
    );
    assert_eq!(backup_source_dir("/mnt/bk/", "//sdcard"), "/mnt/bk/sdcard".to_string());
}

#[test]
fn restore_target_rebuilds_device_path() {
    let (remote, mkdir) = restore_target("/sdcard/DCIM", "Camera\\a b.jpg");
    assert_eq!(remote, "/sdcard/DCIM/Camera/a b.jpg");
    assert_eq!(mkdir, Some("mkdir -p '/sdcard/DCIM/Camera'".to_string()));
    let (top, none) = restore_target("", "x.jpg");
    assert_eq!(top, "/x.jpg");
    assert_eq!(none, None);
}
