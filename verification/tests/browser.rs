use andpull::browser::{
    clamp_index, command_for, cycle_next, deletion_order, cycle_prev, flat_rows, next_index, other_pane,
    prev_index, push_destination, unloaded_selection, AppView, FlatNode, Key, Pane, UiCommand,
};
use andpull::display::{
    error_log, file_icon, format_duration, profile_run_status, profile_run_totals, report_outcomes,
    summary_status,
};
use andpull::profile::runner::ProfileOutcome;
use andpull::scanner::tree::FileNode;

fn file(path: &str) -> FileNode {
    let mut n = FileNode::root(path);
    n.is_dir = false;
    n
}

fn sample_tree() -> FileNode {
    let mut root = FileNode::root("/sdcard");
    let mut dcim = FileNode::root("/sdcard/DCIM");
    dcim.depth = 1;
    dcim.expanded = false;
    dcim.children.push(file("/sdcard/DCIM/x.jpg"));
    root.children.push(dcim);
    root.children.push(file("/sdcard/IMG_1.jpg"));
    root.children.push(file("/sdcard/notes.txt"));
    root.children.push(file("/sdcard/shot[1].png"));
    root
}

#[test]
fn rows_follow_expansion_and_media_filter() {
    let tree = sample_tree();
    let rows = flat_rows(&tree, false, "");
    let names: Vec<&str> = rows.iter().map(|r| r.name.as_str()).collect();
    assert_eq!(names, vec!["sdcard", "DCIM", "IMG_1.jpg", "notes.txt", "shot[1].png"]);
    let media = flat_rows(&tree, true, "");
    let names: Vec<&str> = media.iter().map(|r| r.name.as_str()).collect();
    assert_eq!(names, vec!["sdcard", "DCIM", "IMG_1.jpg", "shot[1].png"]);
    assert!(rows.iter().all(|r| r.tree_index.is_empty()));
}

#[test]
fn search_uses_glob_or_substring() {
    let tree = sample_tree();
    let globbed = flat_rows(&tree, false, "*.jpg");
    let names: Vec<&str> = globbed.iter().map(|r| r.name.as_str()).collect();
    assert_eq!(names, vec!["IMG_1.jpg"]);
    // An invalid glob falls back to a case-insensitive substring match.
    let substring = flat_rows(&tree, false, "[img");
    assert!(substring.is_empty());
    let substring = flat_rows(&tree, false, "NOTES");
    assert_eq!(substring.len(), 0);
    let substring = flat_rows(&tree, false, "notes.txt");
    assert_eq!(substring.len(), 1);
    // "SHOT[" does not compile as a glob: it is looked for in lower-cased names.
    let substring = flat_rows(&tree, false, "SHOT[");
    assert_eq!(substring.len(), 1);
    assert_eq!(substring[0].name, "shot[1].png");
}

#[test]
fn cursor_moves_stay_in_bounds() {
    assert_eq!(clamp_index(5, 3), 2);
    assert_eq!(clamp_index(5, 0), 0);
    assert_eq!(clamp_index(1, 3), 1);
    assert_eq!(next_index(0, 3), 1);
    assert_eq!(next_index(2, 3), 2);
    assert_eq!(next_index(4, 0), 4);
    assert_eq!(prev_index(0), 0);
    assert_eq!(prev_index(2), 1);
    assert_eq!(cycle_next(2, 3), 0);
    assert_eq!(cycle_next(0, 3), 1);
    assert_eq!(cycle_prev(0, 3), 2);
    assert_eq!(cycle_prev(1, 3), 0);
    assert_eq!(other_pane(Pane::Left), Pane::Right);
    assert_eq!(other_pane(Pane::Right), Pane::Left);
    assert_ne!(AppView::DeviceSelect, AppView::Summary);
}

fn row(path: &str, is_dir: bool) -> FlatNode {
    let mut n = FileNode::root(path);
    n.is_dir = is_dir;
    FlatNode::of(&n)
}

#[test]
fn push_goes_to_directory_under_cursor() {
    assert_eq!(push_destination(None), "/sdcard");
    assert_eq!(push_destination(Some(&row("/sdcard/DCIM", true))), "/sdcard/DCIM");
    assert_eq!(push_destination(Some(&row("/sdcard/DCIM/a.jpg", false))), "/sdcard/DCIM");
    assert_eq!(push_destination(Some(&row("/a.jpg", false))), "/sdcard");
    assert_eq!(push_destination(Some(&row("a.jpg", false))), "/sdcard");
    assert_eq!(push_destination(Some(&row("/", true))), "/sdcard");
}

#[test]
fn durations_are_formatted() {
    assert_eq!(format_duration(0), "0s");
    assert_eq!(format_duration(59), "59s");
    assert_eq!(format_duration(61), "1m 1s");
    assert_eq!(format_duration(3600), "1h 0m 0s");
    assert_eq!(format_duration(3725), "1h 2m 5s");
}

#[test]
fn icons_follow_extension() {
    assert_eq!(file_icon("a.JPG"), "🖼️");
    assert_eq!(file_icon("clip.mp4"), "🎬");
    assert_eq!(file_icon("song.opus"), "🎵");
    assert_eq!(file_icon("app.apk"), "📦");
    assert_eq!(file_icon("x.tar.gz"), "🗜️");
    assert_eq!(file_icon("README"), "📄");
}

#[test]
fn outcomes_are_reported() {
    let outcomes = vec![
        ProfileOutcome { name: "dcim".to_string(), success: true, error: None, files_transferred: 3 },
        ProfileOutcome {
            name: "whatsapp".to_string(),
            success: false,
            error: Some("no root".to_string()),
            files_transferred: 0,
        },
        ProfileOutcome { name: "x".to_string(), success: false, error: None, files_transferred: 0 },
    ];
    let (lines, all_ok) = report_outcomes(&outcomes);
    assert!(!all_ok);
    assert_eq!(lines, vec!["[ok] dcim: 3 files", "[FAIL] whatsapp: no root", "[FAIL] x: unknown error"]);
    assert!(report_outcomes(&outcomes[..1].to_vec()).1);
}

#[test]
fn summary_headline_follows_counts() {
    assert_eq!(summary_status(0, 5, false), ("✅", "Transfer Complete!"));
    assert_eq!(summary_status(2, 5, false), ("⚠️", "Transfer Complete (with errors)"));
    assert_eq!(summary_status(2, 0, true), ("❌", "Transfer Cancelled"));
}

#[test]
fn quit_keys_depend_on_view() {
    assert_eq!(command_for(AppView::FileBrowser, Key::Char('q')), UiCommand::Quit);
    assert_eq!(command_for(AppView::DeviceSelect, Key::Esc), UiCommand::Quit);
    assert_eq!(command_for(AppView::Transferring, Key::Char('q')), UiCommand::CancelAndQuit);
    assert_eq!(
        command_for(AppView::FileBrowserSearch, Key::Char('q')),
        UiCommand::SearchPush('q')
    );
    assert_eq!(command_for(AppView::FileBrowserSearch, Key::Esc), UiCommand::CloseSearch);
}

#[test]
fn browser_keys_drive_selection_and_transfer() {
    assert_eq!(command_for(AppView::FileBrowser, Key::Char(' ')), UiCommand::ToggleSelect);
    assert_eq!(command_for(AppView::FileBrowser, Key::Enter), UiCommand::ToggleExpand);
    assert_eq!(command_for(AppView::FileBrowser, Key::Char('s')), UiCommand::StartTransfer);
    assert_eq!(command_for(AppView::FileBrowser, Key::Delete), UiCommand::DeleteSelected);
    assert_eq!(command_for(AppView::FileBrowser, Key::Char('j')), UiCommand::BrowserNext);
    assert_eq!(command_for(AppView::Summary, Key::Char('j')), UiCommand::ScrollDown);
    assert_eq!(command_for(AppView::Summary, Key::Tab), UiCommand::Nothing);
    assert_eq!(command_for(AppView::DestinationBrowser, Key::Backspace), UiCommand::GoBack);
}

#[test]
fn deletion_order_removes_deepest_first_stably() {
    let mut a = FileNode::root("/pc/a");
    a.depth = 1;
    let mut ab = FileNode::root("/pc/a/b");
    ab.depth = 2;
    let mut c = FileNode::root("/pc/c");
    c.depth = 1;
    let mut abd = FileNode::root("/pc/a/b/d");
    abd.depth = 3;
    let dirs = vec![&a, &ab, &c, &abd];
    let order: Vec<&str> = deletion_order(&dirs).iter().map(|n| n.path.as_str()).collect();
    assert_eq!(order, vec!["/pc/a/b/d", "/pc/a/b", "/pc/a", "/pc/c"]);
}

#[test]
fn unloaded_selection_lists_unlisted_selected_dirs() {
    let mut root = FileNode::root("/sdcard");
    root.loaded = true;
    let mut listed = FileNode::root("/sdcard/DCIM");
    listed.loaded = true;
    listed.selected = true;
    let mut unlisted = FileNode::root("/sdcard/Music");
    unlisted.selected = true;
    let other = FileNode::root("/sdcard/Movies");
    root.children = vec![listed, unlisted, other];
    assert_eq!(unloaded_selection(&root), vec!["/sdcard/Music".to_string()]);
}

#[test]
fn readme_keybindings_in_file_browser() {
    let v = AppView::FileBrowser;
    for key in [Key::Up, Key::Char('k')] {
        assert_eq!(command_for(v, key), UiCommand::BrowserPrev);
    }
    for key in [Key::Down, Key::Char('j')] {
        assert_eq!(command_for(v, key), UiCommand::BrowserNext);
    }
    assert_eq!(command_for(v, Key::Tab), UiCommand::TogglePane);
    assert_eq!(command_for(v, Key::Enter), UiCommand::ToggleExpand);
    assert_eq!(command_for(v, Key::Char(' ')), UiCommand::ToggleSelect);
    assert_eq!(command_for(v, Key::Char('s')), UiCommand::StartTransfer);
    assert_eq!(command_for(v, Key::Char('/')), UiCommand::OpenSearch);
    assert_eq!(command_for(v, Key::Char('f')), UiCommand::ToggleMediaFilter);
    for key in [Key::Delete, Key::Char('x')] {
        assert_eq!(command_for(v, key), UiCommand::DeleteSelected);
    }
    for key in [Key::Char('q'), Key::Esc] {
        assert_eq!(command_for(v, key), UiCommand::Quit);
    }
}

fn outcome(name: &str, success: bool, files: u64) -> ProfileOutcome {
    ProfileOutcome {
        name: name.to_string(),
        success,
        error: if success { None } else { Some("boom".to_string()) },
        files_transferred: files,
    }
}

#[test]
fn profile_run_summary_counts_and_headline() {
    let all_ok = vec![outcome("whatsapp", true, 10), outcome("dcim", true, 5)];
    assert_eq!(profile_run_totals(&all_ok), (15, 0));
    assert_eq!(profile_run_status(0, 2), ("✅", "Profile Run Complete!"));
    let mixed = vec![outcome("whatsapp", false, 0), outcome("dcim", true, 7)];
    assert_eq!(profile_run_totals(&mixed), (7, 1));
    assert_eq!(profile_run_status(1, 2), ("⚠️", "Profile Run Complete (with errors)"));
    assert_eq!(profile_run_status(2, 2), ("❌", "Profile Run Failed"));
    assert_eq!(profile_run_totals(&vec![]), (0, 0));
}

#[test]
fn error_log_lists_newest_twenty_by_file_name() {
    let errors: Vec<(String, String)> = (0..25)
        .map(|i| (format!("/sdcard/DCIM/img{i}.jpg"), format!("failed {i}")))
        .collect();
    let log = error_log(&errors);
    assert_eq!(log.len(), 20);
    assert_eq!(log[0], ("img24.jpg".to_string(), "failed 24".to_string()));
    assert_eq!(log[19], ("img5.jpg".to_string(), "failed 5".to_string()));
    let short = error_log(&vec![("FATAL".to_string(), "no device".to_string())]);
    assert_eq!(short, vec![("FATAL".to_string(), "no device".to_string())]);
}
