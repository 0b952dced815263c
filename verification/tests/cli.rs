use andpull::cli::{chrono_now, civil_from_unix, parse_args, timestamp_at, Command, ParseOutcome};

fn v(items: &[&str]) -> Vec<String> {
    items.iter().map(|s| s.to_string()).collect()
}

#[test]
fn empty_args_is_tui_default_dest() {
    assert_eq!(
        parse_args(&[], 0),
        ParseOutcome::Run(Command::Tui {
            destination: "andpull_output".to_string()
        })
    );
}

#[test]
fn bare_positional_is_tui_with_dest() {
    assert_eq!(
        parse_args(&v(&["mydest"]), 0),
        ParseOutcome::Run(Command::Tui {
            destination: "mydest".to_string()
        })
    );
}

#[test]
fn backup_defaults_all_profiles_and_timestamped_dest() {
    let out = parse_args(&v(&["backup"]), 0);
    match out {
        ParseOutcome::Run(Command::Backup {
            profiles,
            with_appdata,
            destination,
        }) => {
            assert!(profiles.is_none());
            assert!(!with_appdata);
            assert!(destination.starts_with("andpull_backup_"));
            assert_eq!(destination.len(), "andpull_backup_YYYYmmdd_HHMMSS".len());
        }
        other => panic!("unexpected outcome: {other:?}"),
    }
}

#[test]
fn backup_full_flag_set_parses() {
    let out = parse_args(&v(&[
        "backup",
        "--profiles",
        "whatsapp,dcim",
        "--with-appdata",
        "/tmp/x",
    ]), 0);
    assert_eq!(
        out,
        ParseOutcome::Run(Command::Backup {
            profiles: Some(vec!["whatsapp".to_string(), "dcim".to_string()]),
            with_appdata: true,
            destination: "/tmp/x".to_string(),
        })
    );
}

#[test]
fn backup_single_profile_no_space_in_value() {
    let out = parse_args(&v(&["backup", "--profiles", " dcim "]), 0);
    match out {
        ParseOutcome::Run(Command::Backup { profiles, .. }) => {
            assert_eq!(profiles, Some(vec!["dcim".to_string()]));
        }
        other => panic!("unexpected outcome: {other:?}"),
    }
}

#[test]
fn backup_missing_profiles_value_errors() {
    assert!(matches!(
        parse_args(&v(&["backup", "--profiles"]), 0),
        ParseOutcome::Error(_)
    ));
}

#[test]
fn backup_unknown_flag_errors() {
    match parse_args(&v(&["backup", "--bogus"]), 0) {
        ParseOutcome::Error(msg) => assert!(msg.contains("--bogus")),
        other => panic!("expected error, got {other:?}"),
    }
}

#[test]
fn backup_extra_positional_errors() {
    assert!(matches!(
        parse_args(&v(&["backup", "/a", "/b"]), 0),
        ParseOutcome::Error(_)
    ));
}

#[test]
fn restore_with_dir_and_tar_parses() {
    assert_eq!(
        parse_args(&v(&["restore", "--with-appdata", "wa.tar", "/mnt/bk"]), 0),
        ParseOutcome::Run(Command::Restore {
            with_appdata: Some("wa.tar".to_string()),
            backup_dir: "/mnt/bk".to_string(),
        })
    );
}

#[test]
fn restore_defaults_to_cwd_without_appdata() {
    assert_eq!(
        parse_args(&v(&["restore"]), 0),
        ParseOutcome::Run(Command::Restore {
            with_appdata: None,
            backup_dir: ".".to_string(),
        })
    );
}

#[test]
fn restore_unknown_flag_errors() {
    match parse_args(&v(&["restore", "-x"]), 0) {
        ParseOutcome::Error(msg) => assert!(msg.contains("-x")),
        other => panic!("expected error, got {other:?}"),
    }
}

#[test]
fn help_flags_are_recognized() {
    for f in ["--help", "-h", "help"] {
        assert_eq!(parse_args(&v(&[f]), 0), ParseOutcome::Help);
    }
}

#[test]
fn unknown_subcommand_errors() {
    match parse_args(&v(&["--frobnicate"]), 0) {
        ParseOutcome::Error(msg) => assert!(msg.contains("--frobnicate")),
        other => panic!("expected error, got {other:?}"),
    }
}

#[test]
fn timestamp_format_is_sane() {
    let ts = chrono_now(chrono::Local::now().offset().local_minus_utc());
    assert_eq!(ts.len(), 15); // 8 digits + '_' + 6 digits
    assert!(ts.as_bytes()[8] == b'_');
    assert!(ts.chars().take(8).all(|c| c.is_ascii_digit()));
    assert!(ts.chars().skip(9).all(|c| c.is_ascii_digit()));
}

#[test]
fn civil_from_unix_known_values() {
    assert_eq!(civil_from_unix(0), (1970, 1, 1, 0, 0, 0));
    assert_eq!(civil_from_unix(1_787_616_000), (2026, 8, 25, 0, 0, 0));
    assert_eq!(civil_from_unix(951_782_400), (2000, 2, 29, 0, 0, 0));
}

#[test]
fn civil_from_unix_before_epoch_and_time_of_day() {
    assert_eq!(civil_from_unix(-1), (1969, 12, 31, 23, 59, 59));
    assert_eq!(civil_from_unix(3_661), (1970, 1, 1, 1, 1, 1));
}

#[test]
fn usage_mentions_subcommands() {
    let u = andpull::cli::usage();
    assert!(u.contains("backup"));
    assert!(u.contains("restore"));
}

#[test]
fn timestamps_shift_into_the_local_zone() {
    assert_eq!(timestamp_at(0), "19700101_000000");
    assert_eq!(timestamp_at(0 + 3600), "19700101_010000");
    assert_eq!(timestamp_at(0 - 3600), "19691231_230000");
}

#[test]
fn civil_from_unix_skips_february_29_of_1900() {
    assert_eq!(civil_from_unix(-2_203_891_201), (1900, 2, 28, 23, 59, 59));
    assert_eq!(civil_from_unix(-2_203_891_200), (1900, 3, 1, 0, 0, 0));
    assert_eq!(civil_from_unix(951_868_799), (2000, 2, 29, 23, 59, 59));
}
