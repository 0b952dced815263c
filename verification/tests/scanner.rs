use andpull::adb::client::RemoteEntry;
use andpull::error::{AppError, AppResult};
use andpull::profile::assemble::{keep_extensions, profile_tree};
use andpull::profile::{ProfileSpec, SourceSpec};
use andpull::scanner::local::LocalScanner;
use andpull::scanner::tree::{find_node_mut, FileNode, Scanner};

fn entry(parent: &str, name: &str, is_dir: bool, size: u64) -> RemoteEntry {
    RemoteEntry {
        name: name.to_string(),
        path: format!("{parent}/{name}"),
        is_dir,
        size,
        mtime: 0,
    }
}

/// A small device: /sdcard with DCIM (two photos, a nested dir) and a file.
fn device(path: &str) -> AppResult<Vec<RemoteEntry>> {
    match path {
        "/sdcard" => Ok(vec![
            entry("/sdcard", "notes.txt", false, 5),
            entry("/sdcard", "DCIM", true, 4096),
        ]),
        "/sdcard/DCIM" => Ok(vec![
            entry("/sdcard/DCIM", "b.JPG", false, 200),
            entry("/sdcard/DCIM", "Camera", true, 4096),
            entry("/sdcard/DCIM", "a.txt", false, 100),
        ]),
        "/sdcard/DCIM/Camera" => Ok(vec![entry("/sdcard/DCIM/Camera", "c.jpg", false, 1000)]),
        _ => Err(AppError::NotFound { path: path.to_string() }),
    }
}

#[test]
fn load_children_sorts_directories_first() {
    let mut root = FileNode::root("/sdcard/DCIM");
    Scanner::load_children(&mut root, device("/sdcard/DCIM").unwrap());
    let names: Vec<&str> = root.children.iter().map(|c| c.name.as_str()).collect();
    assert_eq!(names, vec!["Camera", "a.txt", "b.JPG"]);
    assert!(root.loaded);
    assert_eq!(root.total_size, 300);
    assert_eq!(root.file_count, 2);
    assert_eq!(root.children[0].depth, 1);
}

#[test]
fn load_recursive_walks_to_depth() {
    let mut root = FileNode::root("/sdcard");
    Scanner::load_recursive(&mut root, 4, &device).unwrap();
    assert_eq!(root.total_size, 5 + 200 + 100 + 1000);
    assert_eq!(root.file_count, 4);
    let dcim = &root.children[0];
    assert_eq!(dcim.name, "DCIM");
    assert!(dcim.loaded);
    assert!(dcim.children[0].loaded);
}

#[test]
fn load_recursive_stops_at_max_depth() {
    let mut root = FileNode::root("/sdcard");
    Scanner::load_recursive(&mut root, 1, &device).unwrap();
    assert!(root.loaded);
    assert!(!root.children[0].loaded);
    assert_eq!(root.total_size, 5);
}

#[test]
fn load_recursive_reports_listing_failure() {
    let mut root = FileNode::root("/missing");
    let r = Scanner::load_recursive(&mut root, 3, &device);
    assert!(matches!(r, Err(AppError::NotFound { .. })));
    assert!(!root.loaded);
}

#[test]
fn media_tree_lists_storage_and_sd_cards() {
    let listing: AppResult<String> = Ok("emulated\nABCD-1234\nself\n".to_string());
    let tree = Scanner::build_media_tree(&listing, &device).unwrap();
    assert_eq!(tree.name, "Device Root");
    assert_eq!(tree.children.len(), 2);
    assert_eq!(tree.children[0].name, "Internal Storage");
    assert!(tree.children[0].loaded);
    assert_eq!(tree.children[1].path, "/storage/ABCD-1234");
    assert_eq!(tree.children[1].name, "SD Card (ABCD-1234)");
    assert!(!tree.children[1].loaded);
    assert_eq!(tree.total_size, 5);
}

#[test]
fn local_listing_keeps_parent_link_first() {
    let mut root = FileNode::root("/home/u/out");
    let mut up = FileNode::root("/home/u");
    up.name = "..".to_string();
    up.depth = 1;
    root.children.push(up);
    LocalScanner::load_children(
        &mut root,
        vec![
            entry("/home/u/out", "z.txt", false, 3),
            entry("/home/u/out", "Photos", true, 0),
        ],
    );
    let names: Vec<&str> = root.children.iter().map(|c| c.name.as_str()).collect();
    assert_eq!(names, vec!["..", "Photos", "z.txt"]);
    assert_eq!(root.file_count, 1);
}

#[test]
fn local_walk_skips_parent_link() {
    let mut root = FileNode::root("/sdcard");
    let mut up = FileNode::root("/");
    up.name = "..".to_string();
    up.depth = 1;
    root.children.push(up);
    LocalScanner::load_recursive(&mut root, 3, &device).unwrap();
    assert_eq!(root.children[0].name, "..");
    assert!(!root.children[0].loaded);
    assert_eq!(root.file_count, 4);
}

#[test]
fn keep_extensions_prunes_other_files() {
    let mut root = FileNode::root("/sdcard");
    Scanner::load_recursive(&mut root, 4, &device).unwrap();
    keep_extensions(&mut root, &vec!["jpg".to_string()]);
    assert_eq!(root.file_count, 2);
    assert_eq!(root.total_size, 1200);
    let dcim = &root.children[0];
    let names: Vec<&str> = dcim.children.iter().map(|c| c.name.as_str()).collect();
    assert_eq!(names, vec!["Camera", "b.JPG"]);
}

fn profile(requires_root: bool, recursive: bool, exts: Option<Vec<&str>>) -> ProfileSpec {
    ProfileSpec {
        name: "p".to_string(),
        priority: 0,
        requires_root,
        sources: vec![SourceSpec {
            device_path: "/sdcard/DCIM".to_string(),
            alt_paths: vec![],
            recursive,
            extensions: exts.map(|v| v.into_iter().map(|s| s.to_string()).collect()),
        }],
    }
}

#[test]
fn profile_tree_selects_matching_files() {
    let p = profile(false, true, Some(vec!["jpg"]));
    let tree = profile_tree(&p, &device, &device).unwrap();
    assert_eq!(tree.path, "/sdcard/DCIM");
    assert_eq!(tree.children.len(), 1);
    assert_eq!(tree.selected_file_count(), 2);
    assert_eq!(tree.selected_total_size(), 1200);
}

#[test]
fn profile_tree_one_level_without_recursion() {
    let p = profile(false, false, None);
    let tree = profile_tree(&p, &device, &device).unwrap();
    assert_eq!(tree.selected_file_count(), 2);
}

#[test]
fn rooted_profile_falls_back_to_plain_listing() {
    let failing = |_: &str| -> AppResult<Vec<RemoteEntry>> { Err(AppError::NoDevice) };
    let p = profile(true, false, None);
    let tree = profile_tree(&p, &device, &failing).unwrap();
    assert_eq!(tree.selected_file_count(), 3);
    let rooted_ok = profile_tree(&p, &device, &device).unwrap();
    assert_eq!(rooted_ok.selected_file_count(), 3);
    // The rooted listing keeps the listing order.
    assert_eq!(rooted_ok.children[0].children[0].name, "b.JPG");
}

#[test]
fn sorting_ignores_letter_case() {
    let mut root = FileNode::root("/sdcard");
    Scanner::load_children(
        &mut root,
        vec![
            entry("/sdcard", "Beta.txt", false, 1),
            entry("/sdcard", "alpha.txt", false, 1),
            entry("/sdcard", "Zeta", true, 0),
            entry("/sdcard", "music", true, 0),
        ],
    );
    let names: Vec<&str> = root.children.iter().map(|c| c.name.as_str()).collect();
    assert_eq!(names, vec!["music", "Zeta", "alpha.txt", "Beta.txt"]);
}

#[test]
fn find_node_mut_reaches_nested_node() {
    let mut root = FileNode::root("/sdcard");
    Scanner::load_recursive(&mut root, 4, &device).unwrap();
    let node = find_node_mut(&mut root, "/sdcard/DCIM/Camera").expect("nested directory");
    assert!(node.is_dir);
    node.set_selected_recursive(true);
    assert_eq!(root.selected_file_count(), 1);
    assert_eq!(root.selected_total_size(), 1000);
    assert!(root.children[0].children[0].selected);
    assert!(!root.children[0].selected);
}

#[test]
fn find_node_mut_misses_unknown_path() {
    let mut root = FileNode::root("/sdcard");
    root.children.push(FileNode::root("/sdcard/Music"));
    assert!(find_node_mut(&mut root, "/sdcard/Movies").is_none());
    assert!(find_node_mut(&mut root, "/sdcard").is_some());
    assert_eq!(find_node_mut(&mut root, "/sdcard/Music").map(|n| n.name.clone()), Some("Music".to_string()));
}

#[test]
fn local_tree_root_links_parent() {
    let root = LocalScanner::tree_root("/home/u/out", "out", Some("/home/u"));
    assert_eq!(root.name, "PC (out)");
    assert_eq!(root.path, "/home/u/out");
    assert!(root.expanded && !root.loaded);
    assert_eq!(root.children.len(), 1);
    assert_eq!(root.children[0].name, "..");
    assert_eq!(root.children[0].path, "/home/u");
    assert_eq!(root.children[0].depth, 1);
    let top = LocalScanner::tree_root("/", "/", None);
    assert_eq!(top.name, "PC (/)");
    assert!(top.children.is_empty());
}

#[test]
fn second_walk_lists_nothing_again() {
    let mut root = FileNode::root("/sdcard");
    Scanner::load_recursive(&mut root, 4, &device).unwrap();
    let before: Vec<String> = root.children.iter().map(|c| c.path.clone()).collect();
    let calls = std::cell::Cell::new(0);
    let counting = |p: &str| {
        calls.set(calls.get() + 1);
        device(p)
    };
    Scanner::load_recursive(&mut root, 4, &counting).unwrap();
    assert_eq!(calls.get(), 0);
    let after: Vec<String> = root.children.iter().map(|c| c.path.clone()).collect();
    assert_eq!(before, after);
    assert_eq!(root.file_count, 4);
}

/// A device whose two directories each list nearly `u64::MAX` bytes.
fn huge_device(path: &str) -> AppResult<Vec<RemoteEntry>> {
    match path {
        "/big" => Ok(vec![entry("/big", "a", true, 0), entry("/big", "b", true, 0)]),
        "/big/a" => Ok(vec![entry("/big/a", "x", false, u64::MAX - 10)]),
        "/big/b" => Ok(vec![entry("/big/b", "y", false, u64::MAX - 10)]),
        "/one" => Ok(vec![
            entry("/one", "p", false, u64::MAX),
            entry("/one", "q", false, 1),
        ]),
        _ => Err(AppError::NotFound { path: path.to_string() }),
    }
}

#[test]
fn nested_listing_failure_is_returned_and_loaded_nodes_stay() {
    let failing = |p: &str| -> AppResult<Vec<RemoteEntry>> {
        if p == "/sdcard/DCIM/Camera" {
            Err(AppError::Protocol("listing refused".to_string()))
        } else {
            device(p)
        }
    };
    let mut root = FileNode::root("/sdcard");
    let r = Scanner::load_recursive(&mut root, 4, &failing);
    match r {
        Err(AppError::Protocol(m)) => assert_eq!(m, "listing refused"),
        other => panic!("unexpected: {other:?}"),
    }
    assert!(root.loaded);
    let dcim = root.children.iter().find(|c| c.name == "DCIM").unwrap();
    assert!(dcim.loaded);
}

#[test]
fn listing_past_u64_is_an_overflow_naming_the_directory() {
    let mut root = FileNode::root("/one");
    match Scanner::load_recursive(&mut root, 2, &huge_device) {
        Err(AppError::Protocol(m)) => assert_eq!(m, "size totals overflow below /one"),
        other => panic!("unexpected: {other:?}"),
    }
    assert!(!root.loaded);
}

#[test]
fn summed_subtrees_past_u64_are_an_overflow_naming_the_parent() {
    let mut root = FileNode::root("/big");
    match Scanner::load_recursive(&mut root, 3, &huge_device) {
        Err(AppError::Protocol(m)) => assert_eq!(m, "size totals overflow below /big"),
        other => panic!("unexpected: {other:?}"),
    }
    assert!(root.children.iter().all(|c| c.loaded));
}

#[test]
fn media_tree_overflow_names_the_root() {
    let listing: AppResult<String> = Ok("AAAA-1111\n".to_string());
    let lister = |p: &str| -> AppResult<Vec<RemoteEntry>> {
        match p {
            "/sdcard" => Ok(vec![entry("/sdcard", "x", false, u64::MAX - 1)]),
            "/storage/AAAA-1111" => Ok(vec![entry("/storage/AAAA-1111", "y", false, 5)]),
            _ => Err(AppError::NotFound { path: p.to_string() }),
        }
    };
    match Scanner::build_media_tree(&listing, &lister) {
        Err(AppError::Protocol(m)) => assert_eq!(m, "size totals overflow below /"),
        other => panic!("unexpected: {other:?}"),
    }
}

#[test]
fn profile_tree_returns_the_scan_failure() {
    let failing = |p: &str| -> AppResult<Vec<RemoteEntry>> {
        if p == "/sdcard/DCIM/Camera" {
            Err(AppError::Protocol("camera unreadable".to_string()))
        } else {
            device(p)
        }
    };
    let p = profile(false, true, None);
    match profile_tree(&p, &failing, &failing) {
        Err(AppError::Protocol(m)) => assert_eq!(m, "camera unreadable"),
        other => panic!("unexpected: {other:?}"),
    }
    let rooted = profile(true, true, None);
    match profile_tree(&rooted, &failing, &device) {
        Err(AppError::Protocol(m)) => assert_eq!(m, "camera unreadable"),
        other => panic!("unexpected: {other:?}"),
    }
}
