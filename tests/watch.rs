use lv::store::Db;
use lv::watch::{dedup_nested, Change, FsEvent, WatchCmd};

fn d(path: &str, recursive: bool) -> (String, bool) {
    (path.to_string(), recursive)
}

#[test]
fn dedup_no_overlap() {
    let dirs = vec![d("/a", true), d("/b", true)];
    let result = dedup_nested(&dirs);
    assert_eq!(result.len(), 2);
}

#[test]
fn dedup_child_of_recursive_removed() {
    let dirs = vec![d("/photos", true), d("/photos/vacation", true)];
    let result = dedup_nested(&dirs);
    assert_eq!(result.len(), 1);
    assert_eq!(result[0].0, "/photos");
}

#[test]
fn dedup_child_of_recursive_nonrecursive_child_removed() {
    let dirs = vec![d("/photos", true), d("/photos/vacation", false)];
    let result = dedup_nested(&dirs);
    assert_eq!(result.len(), 1);
    assert_eq!(result[0].0, "/photos");
}

#[test]
fn dedup_nonrecursive_parent_keeps_child() {
    let dirs = vec![d("/photos", false), d("/photos/vacation", true)];
    let result = dedup_nested(&dirs);
    assert_eq!(result.len(), 2);
}

#[test]
fn dedup_no_false_prefix_match() {
    let dirs = vec![d("/photo", true), d("/photos", true)];
    let result = dedup_nested(&dirs);
    assert_eq!(result.len(), 2);
}

#[test]
fn dedup_deeply_nested() {
    let dirs = vec![d("/a", true), d("/a/b", true), d("/a/b/c", false), d("/x", false)];
    let result = dedup_nested(&dirs);
    assert_eq!(result.len(), 2);
    let paths: Vec<&str> = result.iter().map(|(p, _)| p.as_str()).collect();
    assert!(paths.contains(&"/a"));
    assert!(paths.contains(&"/x"));
}

#[test]
fn dedup_empty() {
    let dirs: Vec<(String, bool)> = vec![];
    assert!(dedup_nested(&dirs).is_empty());
}

#[test]
fn dedup_single() {
    let dirs = vec![d("/only", true)];
    let result = dedup_nested(&dirs);
    assert_eq!(result.len(), 1);
}

#[test]
fn watch_cmd_watch_variant() {
    let cmd = WatchCmd::Watch("/tmp/test".into());
    match cmd {
        WatchCmd::Watch(dir) => assert_eq!(dir, "/tmp/test"),
        _ => panic!("expected Watch variant"),
    }
}

#[test]
fn watch_cmd_unwatch_variant() {
    let cmd = WatchCmd::Unwatch("/tmp/test".into());
    match cmd {
        WatchCmd::Unwatch(dir) => assert_eq!(dir, "/tmp/test"),
        _ => panic!("expected Unwatch variant"),
    }
}

#[test]
fn fs_event_changed_variant() {
    let ev = FsEvent::Changed("/photos".into());
    match ev {
        FsEvent::Changed(dir) => assert_eq!(dir, "/photos"),
        _ => panic!("expected Changed"),
    }
}

#[test]
fn fs_event_removed_variant() {
    let ev = FsEvent::Removed("/photos".into());
    match ev {
        FsEvent::Removed(dir) => assert_eq!(dir, "/photos"),
        _ => panic!("expected Removed"),
    }
}

#[test]
fn fs_event_debug_impl() {
    let ev = FsEvent::Changed("/a".into());
    let dbg = format!("{:?}", ev);
    assert!(dbg.contains("Changed"));
    assert!(dbg.contains("/a"));
}

#[test]
fn handle_event_remove_with_win_prefix_mismatch() {
    let mut db = Db::new();
    let clean = r"C:\Users\test\photo.jpg";
    let dir = r"C:\Users\test";
    db.dir_track(dir, false);
    db.file_insert(clean, dir, "photo.jpg", Some(100), None);
    assert!(db.file_lookup(clean).is_some());
    let prefixed = format!(r"\\?\{}", clean);
    let ev = db.apply_change(Change::Remove, &prefixed, None, None);
    assert!(db.file_lookup(clean).is_none());
    match ev {
        Some(FsEvent::Removed(d)) => assert_eq!(d, dir),
        other => panic!("expected Removed, got {:?}", other),
    }
}

#[test]
fn handle_event_remove_without_prefix() {
    let mut db = Db::new();
    db.dir_track("/tmp/w", false);
    db.file_insert("/tmp/w/photo.jpg", "/tmp/w", "photo.jpg", Some(100), None);
    let ev = db.apply_change(Change::Remove, "/tmp/w/photo.jpg", None, None);
    assert!(db.file_lookup("/tmp/w/photo.jpg").is_none());
    match ev {
        Some(FsEvent::Removed(_)) => {}
        _ => panic!("expected Removed"),
    }
}

#[test]
fn handle_event_remove_nonexistent_file_no_event() {
    let mut db = Db::new();
    assert!(db.apply_change(Change::Remove, "/nonexistent/photo.jpg", None, None).is_none());
}

#[test]
fn handle_event_remove_non_media_ignored() {
    let mut db = Db::new();
    db.file_insert("/some/dir/readme.txt", "/some/dir", "readme.txt", None, None);
    assert!(db.apply_change(Change::Remove, "/some/dir/readme.txt", None, None).is_none());
    assert!(db.file_lookup("/some/dir/readme.txt").is_some());
}

#[test]
fn handle_event_create_indexes_and_reports_dir() {
    let mut db = Db::new();
    let ev = db.apply_change(Change::Create, r"\\?\C:\m\a.jpg", Some(3), Some("2024-01-01T00:00:00Z"));
    match ev {
        Some(FsEvent::Changed(d)) => assert_eq!(d, r"C:\m"),
        other => panic!("expected Changed, got {:?}", other),
    }
    let (_, size, _) = db.file_lookup(r"C:\m\a.jpg").unwrap();
    assert_eq!(size, Some(3));
}
