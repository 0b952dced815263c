use andpull::error::{AppError, IoKind};
use andpull::profile::appdata::best_effort_outcome;
use andpull::profile::{builtin_profiles, find_profile, is_build_artifact, resolve_profiles};

#[test]
fn builtins_returns_two() {
    assert_eq!(builtin_profiles().len(), 2);
}

#[test]
fn whatsapp_priority_lower_than_dcim() {
    let profiles = builtin_profiles();
    let wa = profiles.iter().find(|p| p.name == "whatsapp").unwrap();
    let dcim = profiles.iter().find(|p| p.name == "dcim").unwrap();
    assert!(wa.priority < dcim.priority);
}

#[test]
fn whatsapp_requires_root() {
    assert!(find_profile("whatsapp").unwrap().requires_root);
}

#[test]
fn dcim_does_not_require_root() {
    assert!(!find_profile("dcim").unwrap().requires_root);
}

#[test]
fn whatsapp_source_matches_exactly() {
    let p = find_profile("whatsapp").unwrap();
    assert_eq!(p.sources.len(), 1);
    let s = &p.sources[0];
    assert_eq!(s.device_path, "/sdcard/Android/media/com.whatsapp");
    assert_eq!(s.alt_paths, vec!["/sdcard/WhatsApp"]);
}

#[test]
fn dcim_extensions_non_empty() {
    let p = find_profile("dcim").unwrap();
    assert!(!p.sources[0].extensions.as_ref().unwrap().is_empty());
}

#[test]
fn find_profile_lookup() {
    assert!(find_profile("whatsapp").is_some());
    assert!(find_profile("nope").is_none());
}

#[test]
fn artifact_object_file() {
    assert!(is_build_artifact("foo.o"));
}

#[test]
fn artifact_rlib() {
    assert!(is_build_artifact("libfoo.rlib"));
}

#[test]
fn artifact_rmeta() {
    assert!(is_build_artifact("foo.rmeta"));
}

#[test]
fn artifact_cargo_lock_files() {
    assert!(is_build_artifact(".rustc_info.json"));
    assert!(is_build_artifact(".cargo-lock"));
    assert!(is_build_artifact(".cargo-build-lock"));
    assert!(is_build_artifact(".cargo-artifact-lock"));
}

#[test]
fn artifact_hex_fingerprint() {
    assert!(is_build_artifact("a1b2c3d4e5f6a7b8c9d0e1f2a3b4c5d6e7f8a9b0"));
}

#[test]
fn artifact_hex_not_uppercase() {
    assert!(!is_build_artifact("A1B2C3D4E5F6A7B8C9D0E1F2A3B4C5D6E7F8A9B0"));
}

#[test]
fn artifact_target_dir() {
    assert!(is_build_artifact("target"));
}

#[test]
fn artifact_build_script_outputs() {
    assert!(is_build_artifact("run-build-script-build-script-build"));
    assert!(is_build_artifact("rustix_test_can_compile"));
}

#[test]
fn no_false_positive_photos() {
    assert!(!is_build_artifact("IMG_20260727_111036.jpg"));
    assert!(!is_build_artifact("msgstore.db.crypt15"));
    assert!(!is_build_artifact(".nomedia"));
    assert!(!is_build_artifact("DCIM"));
    assert!(!is_build_artifact("WhatsApp"));
}

#[test]
fn no_false_positive_hex_not_exactly_40() {
    assert!(!is_build_artifact("a1b2c3d4e5f6a7b8c9d0e1f2a3b4c5d6e7f8a9b"));
    assert!(!is_build_artifact("a1b2c3d4e5f6a7b8c9d0e1f2a3b4c5d6e7f8a9b01"));
}

#[test]
fn no_false_positive_hex_with_nonhex() {
    assert!(!is_build_artifact("g1b2c3d4e5f6a7b8c9d0e1f2a3b4c5d6e7f8a9b0"));
}

#[test]
fn dcim_profile_details() {
    let p = find_profile("dcim").unwrap();
    assert_eq!(p.sources[0].device_path, "/sdcard/DCIM");
    assert!(p.sources[0].recursive);
}

#[test]
fn resolve_profiles_defaults_to_all_builtins() {
    let specs = resolve_profiles(None).unwrap();
    let names: Vec<&str> = specs.iter().map(|p| p.name.as_str()).collect();
    assert_eq!(names, vec!["whatsapp", "dcim"]);
}

#[test]
fn resolve_profiles_keeps_requested_order() {
    let specs = resolve_profiles(Some(vec!["dcim".to_string(), "whatsapp".to_string()])).unwrap();
    let names: Vec<&str> = specs.iter().map(|p| p.name.as_str()).collect();
    assert_eq!(names, vec!["dcim", "whatsapp"]);
}

#[test]
fn resolve_profiles_reports_first_unknown_name() {
    let r = resolve_profiles(Some(vec![
        "dcim".to_string(),
        "music".to_string(),
        "films".to_string(),
    ]));
    assert_eq!(r.err(), Some("music".to_string()));
}

#[test]
fn appdata_backup_command_quotes_package() {
    assert_eq!(
        andpull::profile::appdata::appdata_backup_command("com.whatsapp"),
        "su -c 'tar -cf - -C /data/data 'com.whatsapp''"
    );
}

#[test]
fn best_effort_backup_keeps_byte_count() {
    assert_eq!(best_effort_outcome(Ok(4096), "/bk/wa.tar"), (Ok(4096), None));
}

#[test]
fn best_effort_backup_fails_only_on_local_io() {
    let local = AppError::Io { kind: IoKind::Other, message: "disk full".to_string() };
    assert_eq!(
        best_effort_outcome(Err(local), "/bk/wa.tar"),
        (Err("local I/O failure writing /bk/wa.tar: disk full".to_string()), None)
    );
    let device = AppError::Protocol("su: not found".to_string());
    assert_eq!(
        best_effort_outcome(Err(device), "/bk/wa.tar"),
        (Ok(0), Some("ADB protocol error: su: not found".to_string()))
    );
}
