use lv::display::{plan_display, DisplayPlan};
use lv::nav::{drop_kind, DropKind, Nav};
use lv::paths::{is_media_ext, str_parent};
use lv::store::{Db, FileEntry};
use lv::watch::{Change, FsEvent};

/// A directory on a pretend disk: its path and the names of its files.
struct Disk {
    dir: String,
    names: Vec<String>,
}

fn setup_drop_dir(filenames: &[&str]) -> (Db, Disk) {
    setup_named("/tmp/drop", filenames)
}

fn setup_named(dir: &str, filenames: &[&str]) -> (Db, Disk) {
    let disk = Disk { dir: dir.to_string(), names: filenames.iter().map(|s| s.to_string()).collect() };
    (Db::new(), disk)
}

fn empty_nav() -> Nav {
    Nav { files: Vec::new(), cursor: 0, current_dir: String::new(), collection_mode: None }
}

fn scan(db: &mut Db, disk: &Disk) {
    for name in &disk.names {
        let ext = std::path::Path::new(name).extension().and_then(|e| e.to_str()).unwrap_or("");
        if is_media_ext(ext) {
            db.index_file(&format!("{}/{}", disk.dir, name), Some(4), None);
        }
    }
}

/// The viewer's drop sequence against the pretend disk.
fn handle_drop(db: &mut Db, disks: &[&Disk], dropped: &str, nav: &mut Nav) -> bool {
    let is_dir = disks.iter().any(|d| d.dir == dropped);
    let is_file = disks.iter().any(|d| d.names.iter().any(|n| format!("{}/{}", d.dir, n) == dropped));
    let (dir, file) = match drop_kind(dropped, is_file, is_dir) {
        DropKind::MediaFile => (str_parent(dropped), Some(dropped.to_string())),
        DropKind::Directory => (dropped.to_string(), None),
        DropKind::Rejected => return false,
    };
    let temporary = db.prepare_drop(&dir);
    if let Some(d) = disks.iter().find(|d| d.dir == dir) {
        scan(db, d);
    }
    if temporary {
        db.mark_dir_temporary(&dir);
    }
    nav.open_dropped(db, &dir, file.as_deref(), temporary)
}

fn refresh(db: &Db, nav: &mut Nav) -> bool {
    let ev = FsEvent::Removed(nav.current_dir.clone());
    nav.on_fs_event(db, &ev)
}

fn pos(files: &[FileEntry], name: &str) -> usize {
    files.iter().position(|f| f.filename == name).unwrap()
}

#[test]
fn drop_image_file_untracked_dir() {
    let (mut db, dir) = setup_drop_dir(&["photo.jpg", "other.png"]);
    let mut nav = empty_nav();
    let ok = handle_drop(&mut db, &[&dir], "/tmp/drop/photo.jpg", &mut nav);
    assert!(ok);
    assert_eq!(nav.files.len(), 2);
    assert!(nav.current_dir.contains("drop"));
    assert_eq!(nav.files[nav.cursor].filename, "photo.jpg");
    // an untracked directory opens as the temporary collection
    assert_eq!(nav.collection_mode, Some(1));
}

#[test]
fn drop_video_file() {
    let (mut db, dir) = setup_drop_dir(&["clip.mp4", "photo.jpg"]);
    let mut nav = empty_nav();
    assert!(handle_drop(&mut db, &[&dir], "/tmp/drop/clip.mp4", &mut nav));
    assert_eq!(nav.files[nav.cursor].filename, "clip.mp4");
}

#[test]
fn drop_non_media_file_rejected() {
    let (mut db, dir) = setup_drop_dir(&["readme.txt", "photo.jpg"]);
    let mut nav = empty_nav();
    assert!(!handle_drop(&mut db, &[&dir], "/tmp/drop/readme.txt", &mut nav));
    assert!(nav.files.is_empty());
}

#[test]
fn drop_directory() {
    let (mut db, dir) = setup_drop_dir(&["a.jpg", "b.png", "c.mp4"]);
    let mut nav = empty_nav();
    assert!(handle_drop(&mut db, &[&dir], "/tmp/drop", &mut nav));
    assert_eq!(nav.files.len(), 3);
    assert_eq!(nav.cursor, 0);
}

#[test]
fn drop_empty_directory() {
    let (mut db, dir) = setup_drop_dir(&[]);
    let mut nav = empty_nav();
    assert!(!handle_drop(&mut db, &[&dir], "/tmp/drop", &mut nav));
    assert!(nav.files.is_empty());
}

#[test]
fn drop_dir_with_no_media() {
    let (mut db, dir) = setup_drop_dir(&["readme.md", "config.toml", ".gitignore"]);
    let mut nav = empty_nav();
    assert!(!handle_drop(&mut db, &[&dir], "/tmp/drop", &mut nav));
    assert!(nav.files.is_empty());
}

#[test]
fn drop_nonexistent_path() {
    let mut db = Db::new();
    let mut nav = empty_nav();
    assert!(!handle_drop(&mut db, &[], "/nonexistent/path/photo.jpg", &mut nav));
}

#[test]
fn drop_exits_collection_mode() {
    let (mut db, dir) = setup_drop_dir(&["photo.jpg"]);
    let mut nav = empty_nav();
    nav.collection_mode = Some(3);
    assert!(handle_drop(&mut db, &[&dir], "/tmp/drop/photo.jpg", &mut nav));
    assert_ne!(nav.collection_mode, Some(3));
    assert_eq!(nav.collection_mode, Some(1));
}

#[test]
fn drop_file_in_already_tracked_dir() {
    let (mut db, dir) = setup_drop_dir(&["photo.jpg", "other.png"]);
    db.dir_track("/tmp/drop", true);
    scan(&mut db, &dir);
    let mut nav = empty_nav();
    nav.files = db.files_by_dir("/tmp/drop");
    nav.current_dir = "/tmp/drop".to_string();
    assert!(handle_drop(&mut db, &[&dir], "/tmp/drop/other.png", &mut nav));
    assert_eq!(nav.files[nav.cursor].filename, "other.png");
    assert_eq!(nav.current_dir, "/tmp/drop");
    assert_eq!(nav.collection_mode, None);
}

#[test]
fn drop_marks_untracked_as_temporary() {
    let (mut db, dir) = setup_drop_dir(&["photo.jpg"]);
    let mut nav = empty_nav();
    handle_drop(&mut db, &[&dir], "/tmp/drop/photo.jpg", &mut nav);
    assert!(nav.files[0].temporary);
}

#[test]
fn drop_tracked_dir_not_marked_temporary() {
    let (mut db, dir) = setup_drop_dir(&["photo.jpg"]);
    db.dir_track("/tmp/drop", true);
    scan(&mut db, &dir);
    let mut nav = empty_nav();
    handle_drop(&mut db, &[&dir], "/tmp/drop/photo.jpg", &mut nav);
    assert!(!nav.files[0].temporary);
}

#[test]
fn drop_file_cursor_points_to_correct_file() {
    let (mut db, dir) = setup_drop_dir(&["aaa.jpg", "bbb.jpg", "ccc.jpg", "ddd.jpg"]);
    let mut nav = empty_nav();
    handle_drop(&mut db, &[&dir], "/tmp/drop/ccc.jpg", &mut nav);
    assert_eq!(nav.files[nav.cursor].filename, "ccc.jpg");
}

#[test]
fn drop_dir_cursor_starts_at_zero() {
    let (mut db, dir) = setup_drop_dir(&["z.jpg", "a.jpg", "m.jpg"]);
    let mut nav = empty_nav();
    nav.cursor = 99;
    handle_drop(&mut db, &[&dir], "/tmp/drop", &mut nav);
    assert_eq!(nav.cursor, 0);
}

#[test]
fn drop_mixed_media_and_non_media_dir() {
    let (mut db, dir) = setup_drop_dir(&["photo.jpg", "readme.txt", "clip.mp4", "notes.md"]);
    let mut nav = empty_nav();
    handle_drop(&mut db, &[&dir], "/tmp/drop", &mut nav);
    assert_eq!(nav.files.len(), 2);
    let names: Vec<&str> = nav.files.iter().map(|f| f.filename.as_str()).collect();
    assert!(names.contains(&"photo.jpg"));
    assert!(names.contains(&"clip.mp4"));
}

#[test]
fn drop_replaces_previous_file_list() {
    let (mut db, dir1) = setup_named("/tmp/one", &["a.jpg"]);
    let (_, dir2) = setup_named("/tmp/two", &["b.png", "c.png"]);
    let mut nav = empty_nav();
    handle_drop(&mut db, &[&dir1, &dir2], "/tmp/one", &mut nav);
    assert_eq!(nav.files.len(), 1);
    handle_drop(&mut db, &[&dir1, &dir2], "/tmp/two", &mut nav);
    // both dropped directories are temporary; the temporary collection lists them all
    assert_eq!(nav.files.len(), 3);
    assert_eq!(nav.current_dir, "/tmp/two");
}

#[test]
fn drop_case_insensitive_extension() {
    let (mut db, dir) = setup_drop_dir(&["PHOTO.JPG", "VIDEO.MP4"]);
    let mut nav = empty_nav();
    assert!(handle_drop(&mut db, &[&dir], "/tmp/drop/PHOTO.JPG", &mut nav));
}

#[test]
fn drop_non_media_returns_false_for_error_display() {
    let (mut db, dir) = setup_drop_dir(&["readme.txt"]);
    let mut nav = empty_nav();
    assert!(!handle_drop(&mut db, &[&dir], "/tmp/drop/readme.txt", &mut nav));
}

#[test]
fn drop_dll_file_rejected() {
    let (mut db, dir) = setup_drop_dir(&["SDL2.dll", "photo.jpg"]);
    let mut nav = empty_nav();
    assert!(!handle_drop(&mut db, &[&dir], "/tmp/drop/SDL2.dll", &mut nav));
}

#[test]
fn drop_exe_file_rejected() {
    let (mut db, dir) = setup_drop_dir(&["app.exe", "photo.jpg"]);
    let mut nav = empty_nav();
    assert!(!handle_drop(&mut db, &[&dir], "/tmp/drop/app.exe", &mut nav));
}

#[test]
fn drop_zip_file_rejected() {
    let (mut db, dir) = setup_drop_dir(&["archive.zip", "photo.jpg"]);
    let mut nav = empty_nav();
    assert!(!handle_drop(&mut db, &[&dir], "/tmp/drop/archive.zip", &mut nav));
}

#[test]
fn watcher_remove_other_file_keeps_cursor_stable() {
    let (mut db, dir) = setup_drop_dir(&["aaa.jpg", "bbb.mp4", "ccc.jpg"]);
    let mut nav = empty_nav();
    handle_drop(&mut db, &[&dir], "/tmp/drop", &mut nav);
    assert_eq!(nav.files.len(), 3);
    nav.cursor = pos(&nav.files, "bbb.mp4");
    let playing_id = nav.files[nav.cursor].id;
    let aaa = nav.files[pos(&nav.files, "aaa.jpg")].path.clone();
    db.remove_file_by_path(&aaa);
    let needs_display = refresh(&db, &mut nav);
    assert_eq!(nav.files[nav.cursor].id, playing_id);
    assert!(!needs_display);
    assert_eq!(nav.files.len(), 2);
}

#[test]
fn watcher_remove_current_file_shifts_cursor() {
    let (mut db, dir) = setup_drop_dir(&["aaa.jpg", "bbb.mp4", "ccc.jpg"]);
    let mut nav = empty_nav();
    handle_drop(&mut db, &[&dir], "/tmp/drop", &mut nav);
    nav.cursor = pos(&nav.files, "bbb.mp4");
    let bbb = nav.files[nav.cursor].path.clone();
    db.remove_file_by_path(&bbb);
    let needs_display = refresh(&db, &mut nav);
    assert!(needs_display);
    assert_eq!(nav.files.len(), 2);
}

#[test]
fn race_watcher_adds_file_cursor_stable() {
    let (mut db, dir) = setup_drop_dir(&["aaa.jpg", "bbb.jpg"]);
    let mut nav = empty_nav();
    handle_drop(&mut db, &[&dir], "/tmp/drop", &mut nav);
    nav.cursor = pos(&nav.files, "bbb.jpg");
    let viewing_id = nav.files[nav.cursor].id;
    let ev = db.apply_change(Change::Create, "/tmp/drop/ccc.png", Some(4), None).unwrap();
    db.mark_dir_temporary("/tmp/drop");
    let needs_display = nav.on_fs_event(&db, &ev);
    assert!(!needs_display);
    assert_eq!(nav.files[nav.cursor].id, viewing_id);
    assert_eq!(nav.files.len(), 3);
}

#[test]
fn race_bulk_delete_multiple_files() {
    let (mut db, dir) = setup_drop_dir(&["a.jpg", "b.jpg", "c.jpg", "d.jpg", "e.jpg"]);
    let mut nav = empty_nav();
    handle_drop(&mut db, &[&dir], "/tmp/drop", &mut nav);
    nav.cursor = pos(&nav.files, "c.jpg");
    let viewing_id = nav.files[nav.cursor].id;
    for name in ["a.jpg", "b.jpg", "d.jpg"] {
        let p = nav.files[pos(&nav.files, name)].path.clone();
        db.remove_file_by_path(&p);
    }
    refresh(&db, &mut nav);
    assert_eq!(nav.files[nav.cursor].id, viewing_id);
    assert_eq!(nav.files.len(), 2);
}

#[test]
fn race_all_files_deleted() {
    let (mut db, dir) = setup_drop_dir(&["a.jpg", "b.jpg"]);
    let mut nav = empty_nav();
    handle_drop(&mut db, &[&dir], "/tmp/drop", &mut nav);
    let paths: Vec<String> = nav.files.iter().map(|f| f.path.clone()).collect();
    for p in &paths {
        db.remove_file_by_path(p);
    }
    let needs_display = refresh(&db, &mut nav);
    assert!(needs_display);
    assert!(nav.files.is_empty());
    assert!(nav.files.get(nav.cursor).is_none());
}

#[test]
fn race_pending_decode_file_removed() {
    let (mut db, dir) = setup_drop_dir(&["slow.webp", "fast.jpg"]);
    let mut nav = empty_nav();
    handle_drop(&mut db, &[&dir], "/tmp/drop", &mut nav);
    nav.cursor = pos(&nav.files, "slow.webp");
    let pending_cold_load: Option<String> = Some(nav.files[nav.cursor].path.clone());
    let p = nav.files[nav.cursor].path.clone();
    db.remove_file_by_path(&p);
    let needs_display = refresh(&db, &mut nav);
    assert!(needs_display);
    if let Some(ref cold_path) = pending_cold_load {
        let still_current = nav.files.get(nav.cursor).map(|f| &f.path) == Some(cold_path);
        assert!(!still_current);
    }
}

#[test]
fn race_cursor_at_last_file_removed() {
    let (mut db, dir) = setup_drop_dir(&["a.jpg", "b.jpg", "c.jpg"]);
    let mut nav = empty_nav();
    handle_drop(&mut db, &[&dir], "/tmp/drop", &mut nav);
    nav.cursor = nav.files.len() - 1;
    let last = nav.files[nav.cursor].path.clone();
    db.remove_file_by_path(&last);
    refresh(&db, &mut nav);
    assert!(nav.cursor < nav.files.len());
    assert_eq!(nav.cursor, nav.files.len() - 1);
    assert_eq!(nav.files.len(), 2);
}

#[test]
fn race_cursor_at_first_file_removed() {
    let (mut db, dir) = setup_drop_dir(&["a.jpg", "b.jpg", "c.jpg"]);
    let mut nav = empty_nav();
    handle_drop(&mut db, &[&dir], "/tmp/drop", &mut nav);
    nav.cursor = 0;
    let first = nav.files[0].path.clone();
    db.remove_file_by_path(&first);
    refresh(&db, &mut nav);
    assert_eq!(nav.cursor, 0);
    assert_eq!(nav.files.len(), 2);
    assert_ne!(nav.files[0].path, first);
}

#[test]
fn race_stale_watcher_event_different_dir() {
    let (mut db, dir_a) = setup_named("/tmp/a", &["a1.jpg", "a2.jpg"]);
    let (_, dir_b) = setup_named("/tmp/b", &["b1.png", "b2.png"]);
    let mut nav = empty_nav();
    db.dir_track("/tmp/a", true);
    db.dir_track("/tmp/b", true);
    handle_drop(&mut db, &[&dir_a, &dir_b], "/tmp/a", &mut nav);
    assert_eq!(nav.files.len(), 2);
    handle_drop(&mut db, &[&dir_a, &dir_b], "/tmp/b", &mut nav);
    let dir_b_str = nav.current_dir.clone();
    assert_eq!(nav.files.len(), 2);
    let viewing_id = nav.files[nav.cursor].id;
    let stale = FsEvent::Changed("/tmp/a".to_string());
    assert!(!nav.on_fs_event(&db, &stale));
    assert_eq!(nav.current_dir, dir_b_str);
    assert_eq!(nav.files[nav.cursor].id, viewing_id);
}

#[test]
fn race_errored_file_removed_by_watcher() {
    let (mut db, dir) = setup_drop_dir(&["bad.jpg", "good.jpg"]);
    let mut nav = empty_nav();
    handle_drop(&mut db, &[&dir], "/tmp/drop", &mut nav);
    nav.cursor = pos(&nav.files, "bad.jpg");
    let mut error_message: Option<(String, String)> = Some(("Failed to decode image".into(), "bad.jpg".into()));
    let p = nav.files[nav.cursor].path.clone();
    db.remove_file_by_path(&p);
    let needs_display = refresh(&db, &mut nav);
    assert!(needs_display);
    assert_eq!(nav.files.len(), 1);
    if let Some(file) = nav.files.get(nav.cursor) {
        // the file is present on the pretend disk
        if plan_display(&file.path, true, false, false) == DisplayPlan::ImageAsync {
            error_message = None;
        }
    }
    assert!(error_message.is_none());
}

#[test]
fn race_cursor_stable_after_many_additions() {
    let (mut db, dir) = setup_drop_dir(&["target.jpg"]);
    let mut nav = empty_nav();
    handle_drop(&mut db, &[&dir], "/tmp/drop", &mut nav);
    let viewing_id = nav.files[nav.cursor].id;
    for i in 0..20 {
        db.index_file(&format!("/tmp/drop/new_{:03}.png", i), Some(4), None);
    }
    db.mark_dir_temporary("/tmp/drop");
    refresh(&db, &mut nav);
    assert_eq!(nav.files[nav.cursor].id, viewing_id);
    assert_eq!(nav.files.len(), 21);
}

#[test]
fn race_single_file_removed_leaves_empty() {
    let (mut db, dir) = setup_drop_dir(&["only.jpg"]);
    let mut nav = empty_nav();
    handle_drop(&mut db, &[&dir], "/tmp/drop", &mut nav);
    assert_eq!(nav.files.len(), 1);
    let p = nav.files[0].path.clone();
    db.remove_file_by_path(&p);
    refresh(&db, &mut nav);
    assert!(nav.files.is_empty());
}
