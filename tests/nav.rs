use lv::display::refresh_cursor;
use lv::nav::{drop_kind, DropKind, Nav};
use lv::scan::Indexed;
use lv::store::Db;
use lv::watch::{Change, FsEvent};

fn library() -> Db {
    let mut db = Db::new();
    for p in ["/a/1.jpg", "/a/2.jpg", "/a/3.jpg", "/b/1.mp4", "/b/2.jpg"] {
        assert_eq!(db.index_file(p, Some(1), None), Indexed::Added);
    }
    db
}

fn open(db: &Db, dir: &str) -> Nav {
    Nav { files: db.files_by_dir(dir), cursor: 0, current_dir: dir.to_string(), collection_mode: None }
}

fn current(n: &Nav) -> String {
    n.files[n.cursor].path.clone()
}

#[test]
fn j_then_k_returns_to_same_file() {
    let db = library();
    let mut n = open(&db, "/a");
    n.cursor = 1;
    let before = n.files[n.cursor].id;
    assert!(n.key_j(&db));
    assert_eq!(current(&n), "/a/3.jpg");
    assert!(n.key_k(&db));
    assert_eq!(n.files[n.cursor].id, before);
}

#[test]
fn j_at_end_crosses_to_next_dir_first_file() {
    let db = library();
    let mut n = open(&db, "/a");
    n.cursor = 2;
    assert!(n.key_j(&db));
    assert_eq!(n.current_dir, "/b");
    assert_eq!(current(&n), "/b/1.mp4");
}

#[test]
fn k_at_start_crosses_to_previous_dir_last_file() {
    let db = library();
    let mut n = open(&db, "/b");
    assert!(n.key_k(&db));
    assert_eq!(n.current_dir, "/a");
    assert_eq!(current(&n), "/a/3.jpg");
}

#[test]
fn h_at_first_dir_start_changes_nothing() {
    let db = library();
    let mut n = open(&db, "/a");
    assert!(!n.key_h(&db));
    assert_eq!(n.cursor, 0);
    assert_eq!(n.current_dir, "/a");
    n.cursor = 2;
    assert!(n.key_h(&db));
    assert_eq!(n.cursor, 0);
}

#[test]
fn l_past_last_dir_changes_nothing() {
    let db = library();
    let mut n = open(&db, "/b");
    n.cursor = 1;
    assert!(!n.key_l(&db));
    assert_eq!(n.current_dir, "/b");
    assert_eq!(n.cursor, 1);
    let mut m = open(&db, "/a");
    assert!(m.key_l(&db));
    assert_eq!(m.current_dir, "/b");
}

#[test]
fn watcher_removal_keeps_playing_video() {
    let mut db = Db::new();
    for p in ["/m/clip.mp4", "/m/sibling.jpg", "/m/z.jpg"] {
        db.index_file(p, Some(1), None);
    }
    let mut n = open(&db, "/m");
    assert_eq!(current(&n), "/m/clip.mp4");
    let ev = db.apply_change(Change::Remove, "/m/sibling.jpg", None, None);
    match &ev {
        Some(FsEvent::Removed(d)) => assert_eq!(d, "/m"),
        _ => panic!("expected Removed"),
    }
    assert!(db.file_lookup("/m/sibling.jpg").is_none());
    let redisplay = n.on_fs_event(&db, &ev.unwrap());
    assert!(!redisplay);
    assert_eq!(n.files.len(), 2);
    assert_eq!(current(&n), "/m/clip.mp4");
}

#[test]
fn watcher_removal_of_current_file_moves_cursor() {
    let mut db = Db::new();
    for p in ["/m/a.jpg", "/m/b.jpg"] {
        db.index_file(p, Some(1), None);
    }
    let mut n = open(&db, "/m");
    n.cursor = 1;
    let ev = db.apply_change(Change::Remove, "/m/b.jpg", None, None).unwrap();
    assert!(n.on_fs_event(&db, &ev));
    assert_eq!(n.cursor, 0);
}

#[test]
fn watcher_event_for_other_dir_is_ignored() {
    let mut db = library();
    let mut n = open(&db, "/a");
    let ev = db.apply_change(Change::Create, "/b/3.jpg", Some(2), None).unwrap();
    assert!(!n.on_fs_event(&db, &ev));
    assert_eq!(n.files.len(), 3);
    assert!(db.apply_change(Change::Create, "/b/notes.txt", Some(2), None).is_none());
}

#[test]
fn refresh_cursor_clamps() {
    let db = library();
    let files = db.files_by_dir("/a");
    assert_eq!(refresh_cursor(Some(999), 7, &files), 2);
    assert_eq!(refresh_cursor(None, 1, &files), 1);
    assert_eq!(refresh_cursor(Some(files[2].id), 0, &files), 2);
    assert_eq!(refresh_cursor(Some(1), 5, &Vec::new()), 0);
}

#[test]
fn dropped_file_from_untracked_dir() {
    let mut db = library();
    db.dir_track("/a", true);
    assert_eq!(drop_kind("/tmp/ext/x.jpg", true, false), DropKind::MediaFile);
    assert_eq!(drop_kind("/tmp/ext/SDL2.dll", true, false), DropKind::Rejected);
    assert_eq!(drop_kind("/tmp/ext", false, true), DropKind::Directory);
    assert_eq!(drop_kind("/nope", false, false), DropKind::Rejected);
    assert!(db.prepare_drop("/tmp/ext"));
    db.index_file("/tmp/ext/x.jpg", Some(3), None);
    db.mark_dir_temporary("/tmp/ext");
    assert!(db.dir_is_tracked("/tmp/ext"));
    assert!(!db.dir_is_covered("/tmp/ext"));
    let mut n = open(&db, "/a");
    assert!(n.open_dropped(&db, "/tmp/ext", Some("/tmp/ext/x.jpg"), true));
    assert_eq!(n.collection_mode, Some(1));
    assert_eq!(current(&n), "/tmp/ext/x.jpg");
    assert!(n.files[n.cursor].temporary);
}

#[test]
fn dropped_file_in_tracked_dir() {
    let mut db = library();
    db.dir_track("/a", true);
    assert!(!db.prepare_drop("/a"));
    let mut n = open(&db, "/b");
    assert!(n.open_dropped(&db, "/a", Some("/a/2.jpg"), false));
    assert_eq!(n.collection_mode, None);
    assert_eq!(n.current_dir, "/a");
    assert_eq!(current(&n), "/a/2.jpg");
    assert!(!n.open_dropped(&db, "/empty", None, false));
    assert_eq!(n.current_dir, "/a");
}

#[test]
fn collection_view_toggle_and_like() {
    let mut db = library();
    let mut n = open(&db, "/a");
    let id = n.files[0].id;
    assert!(db.link_file_to_hash(id, "h1"));
    n.refresh(&db);
    assert_eq!(n.like_current(&mut db), Some(true));
    assert!(n.files[0].liked);
    n.toggle_collection_view(&db, 9);
    assert_eq!(n.collection_mode, Some(9));
    assert_eq!(n.files.len(), 1);
    n.toggle_collection_view(&db, 9);
    assert_eq!(n.collection_mode, None);
    assert_eq!(n.files.len(), 3);
    assert_eq!(db.latest_liked().unwrap().id, id);
    let newest = db.newest_file().unwrap();
    assert_eq!(newest.path, "/a/1.jpg");
}

#[test]
fn jump_to_other_directory() {
    let db = library();
    let mut n = open(&db, "/a");
    let target = db.files_by_dir("/b").pop().unwrap();
    assert!(n.jump_to(&db, target));
    assert_eq!(n.current_dir, "/b");
    assert_eq!(current(&n), "/b/2.jpg");
}

#[test]
fn window_title_format() {
    let db = library();
    let n = open(&db, "/a");
    let t = lv::overlay::window_title(&n.files, 1, r"\\?\C:\pics\a", "0.3.0").unwrap();
    assert_eq!(t, "[2/3] 2.jpg \u{2014} a \u{2014} lv 0.3.0");
    assert!(lv::overlay::window_title(&n.files, 3, "/a", "v").is_none());
}
