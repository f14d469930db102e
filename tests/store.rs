use lv::jobs::Layer;
use lv::scan::Indexed;
use lv::store::{collection_tag, has_tag, toggle_tag, Action, Db};

fn names(db: &Db, dir: &str) -> Vec<String> {
    db.files_by_dir(dir).into_iter().map(|f| f.filename).collect()
}

fn seeded() -> Db {
    let mut db = Db::new();
    db.dir_track("/m", true);
    for p in ["/m/a.jpg", "/m/b.png", "/m/c.mp4"] {
        assert_eq!(db.index_file(p, Some(10), Some("2024-01-01T00:00:00Z")), Indexed::Added);
    }
    db
}

#[test]
fn collection_tag_helper() {
    assert_eq!(collection_tag(2), "c2");
    assert_eq!(collection_tag(8), "c8");
    assert_eq!(collection_tag(9), "like");
    assert_eq!(collection_tag(0), "");
    assert_eq!(collection_tag(1), "");
    assert_eq!(collection_tag(10), "");
}

#[test]
fn scan_and_open_counts() {
    let db = seeded();
    let stats = db.collection_stats();
    assert_eq!(stats.total_files, 3);
    assert_eq!(stats.total_dirs, 1);
    assert_eq!(db.watched_dirs().len(), 0);
    assert!(db.dir_is_tracked("/m"));
    assert_eq!(lv::nav::first_dir(&db.dirs()), Some("/m".to_string()));
    assert_eq!(names(&db, "/m"), vec!["a.jpg", "b.png", "c.mp4"]);
}

#[test]
fn rescan_prune_and_update() {
    let mut db = seeded();
    // b.png deleted on disk, d.gif added, a.jpg grew
    db.remove_file_by_path("/m/b.png");
    assert_eq!(db.index_file("/m/d.gif", Some(5), Some("2024-01-02T00:00:00Z")), Indexed::Added);
    assert_eq!(db.index_file("/m/a.jpg", Some(20), Some("2024-01-01T00:00:00Z")), Indexed::Updated);
    assert_eq!(db.index_file("/m/c.mp4", Some(10), Some("2024-01-01T00:00:00Z")), Indexed::Unchanged);
    assert_eq!(names(&db, "/m"), vec!["a.jpg", "c.mp4", "d.gif"]);
}

#[test]
fn second_index_is_unchanged() {
    let mut db = seeded();
    assert_eq!(db.index_file("/m/a.jpg", Some(10), Some("2024-01-01T00:00:00Z")), Indexed::Unchanged);
    assert_eq!(db.index_file("/m/zero.jpg", Some(0), None), Indexed::Added);
    assert_eq!(db.index_file("/m/zero.jpg", Some(0), None), Indexed::Unchanged);
}

#[test]
fn insert_checks_dir_and_prefix() {
    let mut db = Db::new();
    assert_eq!(db.file_insert("/m/a.jpg", "/x", "a.jpg", None, None), None);
    assert_eq!(db.file_insert(r"\\?\C:\m\a.jpg", r"\\?\C:\m", "a.jpg", None, None), None);
    let id = db.file_insert("/m/a.jpg", "/m", "a.jpg", None, None);
    assert!(id.is_some());
    assert_eq!(db.file_insert("/m/a.jpg", "/m", "a.jpg", None, None), None);
    assert_eq!(db.file_lookup("/m/a.jpg").map(|r| r.0), id);
}

#[test]
fn toggle_like_round_trip() {
    let mut db = seeded();
    let id = db.file_lookup("/m/a.jpg").unwrap().0;
    assert!(db.link_file_to_hash(id, "abc"));
    assert!(db.toggle_like(id));
    let liked = db.random_liked(7).unwrap();
    assert_eq!(liked.path, "/m/a.jpg");
    assert!(liked.liked);
    assert!(!db.toggle_like(id));
    assert!(db.random_liked(7).is_none());
    let actions: Vec<Action> = db.history.iter().map(|h| h.action).collect();
    assert_eq!(actions, vec![Action::Like, Action::Unlike]);
}

#[test]
fn link_shares_metadata_by_hash() {
    let mut db = seeded();
    let a = db.file_lookup("/m/a.jpg").unwrap().0;
    let b = db.file_lookup("/m/b.png").unwrap().0;
    assert!(db.link_file_to_hash(a, "same"));
    assert!(db.link_file_to_hash(b, "same"));
    assert_eq!(db.metas.len(), 1);
    let entries = db.files_by_dir("/m");
    assert_eq!(entries[0].meta_id, entries[1].meta_id);
    assert!(db.toggle_like(a));
    assert!(db.files_by_dir("/m")[1].liked);
}

#[test]
fn update_clears_hash_link() {
    let mut db = seeded();
    let a = db.file_lookup("/m/a.jpg").unwrap().0;
    assert!(db.link_file_to_hash(a, "h"));
    db.file_update_meta(a, Some(99), None);
    assert_eq!(db.files_by_dir("/m")[0].meta_id, None);
    assert_eq!(db.file_lookup("/m/a.jpg").unwrap().1, Some(99));
}

#[test]
fn toggle_collection_without_meta_is_noop() {
    let mut db = seeded();
    let a = db.file_lookup("/m/a.jpg").unwrap().0;
    assert!(!db.toggle_collection(a, 3));
    assert!(db.metas.is_empty());
    assert!(db.link_file_to_hash(a, "h"));
    assert!(db.toggle_collection(a, 3));
    assert!(db.is_in_collection(a, 3));
    assert_eq!(db.files_by_collection(3).len(), 1);
    assert!(!db.toggle_collection(a, 3));
    assert!(!db.is_in_collection(a, 3));
    assert!(!db.toggle_collection(a, 9));
}

#[test]
fn tags_round_trip() {
    let mut db = seeded();
    let a = db.file_lookup("/m/a.jpg").unwrap().0;
    db.link_file_to_hash(a, "h");
    db.toggle_collection(a, 2);
    db.toggle_like(a);
    let mid = db.files_by_dir("/m")[0].meta_id.unwrap();
    let tags = db.get_tags(mid);
    assert_eq!(tags, vec!["c2".to_string(), "like".to_string()]);
    db.set_tags(mid, tags.clone());
    assert_eq!(db.get_tags(mid), tags);
    assert!(db.get_tags(999).is_empty());
}

#[test]
fn toggle_tag_on_lists() {
    let tags = vec!["like".to_string(), "c2".to_string(), "like".to_string()];
    let (t, now) = toggle_tag(&tags, "like");
    assert!(!now);
    assert_eq!(t, vec!["c2".to_string()]);
    let (t2, now2) = toggle_tag(&t, "like");
    assert!(now2);
    assert!(has_tag(&t2, "like"));
    assert_eq!(t2, vec!["c2".to_string(), "like".to_string()]);
}

#[test]
fn remove_missing_path_is_noop() {
    let mut db = seeded();
    db.remove_file_by_path("/m/nothere.jpg");
    assert_eq!(db.file_count(), 3);
    db.remove_file_by_path("/m/b.png");
    assert!(db.file_lookup("/m/b.png").is_none());
    assert_eq!(db.file_count(), 2);
    let a = db.file_lookup("/m/a.jpg").unwrap().0;
    db.remove_file_by_id(a);
    assert_eq!(db.file_count(), 1);
}

#[test]
fn covered_by_recursive_ancestor_only() {
    let mut db = Db::new();
    db.dir_track("/photo", true);
    assert!(db.dir_is_covered("/photo"));
    assert!(db.dir_is_covered("/photo/2024"));
    assert!(!db.dir_is_covered("/photos"));
    db.dir_track("/flat", false);
    assert!(!db.dir_is_covered("/flat/sub"));
    db.dir_untrack("/photo");
    assert!(!db.dir_is_covered("/photo/2024"));
}

#[test]
fn watch_requires_tracking() {
    let mut db = Db::new();
    db.dir_watch("/m");
    assert!(db.watched_dirs().is_empty());
    db.dir_track("/m", true);
    db.dir_watch("/m");
    assert_eq!(db.watched_dirs(), vec![("/m".to_string(), true)]);
    db.dir_unwatch("/m");
    assert!(db.watched_dirs().is_empty());
}

#[test]
fn next_missing_skips_failures_and_done() {
    let mut db = seeded();
    let a = db.file_lookup("/m/a.jpg").unwrap().0;
    let b = db.file_lookup("/m/b.png").unwrap().0;
    let c = db.file_lookup("/m/c.mp4").unwrap().0;
    db.link_file_to_hash(a, "ha");
    db.record_failure(b, Layer::Hash, "unreadable");
    for pick in 0..5 {
        assert_eq!(db.next_missing(Layer::Hash, pick).map(|r| r.0), Some(c));
    }
    assert_eq!(db.next_missing(Layer::Exif, 0).map(|r| r.0), Some(a));
    db.set_dimensions(a, 10, 20, "JPEG");
    assert_eq!(db.next_missing(Layer::Exif, 0), None);
    assert_eq!(db.next_missing(Layer::AiBasic, 0), None);
    let stats = db.collection_stats();
    assert_eq!(stats.hashed, 1);
    assert_eq!(stats.with_exif, 1);
    assert_eq!(stats.failed, 1);
}

#[test]
fn png_needs_generator_info() {
    let mut db = seeded();
    let b = db.file_lookup("/m/b.png").unwrap().0;
    db.link_file_to_hash(b, "hb");
    assert_eq!(db.next_missing(Layer::AiBasic, 3).map(|r| r.1), Some("/m/b.png".to_string()));
    db.set_generator_info(b, "a cat");
    assert_eq!(db.next_missing(Layer::AiBasic, 3), None);
}

#[test]
fn collections_by_temporary_flag() {
    let mut db = seeded();
    let c = db.file_lookup("/m/c.mp4").unwrap().0;
    db.set_temporary(c, true);
    assert_eq!(db.files_by_collection(0).len(), 2);
    assert_eq!(db.files_by_collection(1).len(), 1);
    assert_eq!(db.count_and_size_of_collection(0), (2, 20));
    assert_eq!(db.random_in_collection(1, 42).unwrap().id, c);
    assert_eq!(db.random_file(4).unwrap().filename, "b.png");
}

#[test]
fn size_sum_overflow_reports_zero() {
    let mut db = Db::new();
    db.index_file("/m/a.jpg", Some(i64::MAX), None);
    db.index_file("/m/b.jpg", Some(1), None);
    assert_eq!(db.count_and_size_of_collection(0), (0, 0));
}

#[test]
fn navigate_dir_bounds() {
    let mut db = Db::new();
    for p in ["/b/1.jpg", "/a/1.jpg", "/c/1.jpg"] {
        db.index_file(p, None, None);
    }
    let dirs = db.dirs();
    assert_eq!(dirs, vec!["/a", "/b", "/c"]);
    assert_eq!(lv::nav::navigate_dir(&dirs, "/a", 1), Some("/b".to_string()));
    assert_eq!(lv::nav::navigate_dir(&dirs, "/c", 1), None);
    assert_eq!(lv::nav::navigate_dir(&dirs, "/a", -1), None);
    assert_eq!(lv::nav::navigate_dir(&dirs, "/zzz", 1), None);
    assert_eq!(lv::nav::navigate_dir(&dirs, "/zzz", -1), Some("/c".to_string()));
    assert_eq!(lv::nav::navigate_dir(&dirs, "/aa", 1), Some("/b".to_string()));
    assert_eq!(lv::nav::navigate_dir(&dirs, "/aa", -1), Some("/a".to_string()));
    assert_eq!(lv::nav::navigate_dir(&Vec::new(), "/a", 1), None);
}

#[test]
fn metadata_record() {
    let mut db = seeded();
    let a = db.file_lookup("/m/a.jpg").unwrap().0;
    let m = db.get_metadata(a).unwrap();
    assert_eq!(m.filename, "a.jpg");
    assert_eq!(m.dir, "/m");
    assert_eq!(m.width, None);
    assert!(m.tags.is_empty());
    db.link_file_to_hash(a, "abc");
    db.set_dimensions(a, 640, 480, "JPEG");
    db.toggle_like(a);
    let m = db.get_metadata(a).unwrap();
    assert_eq!(m.hash_sha512.as_deref(), Some("abc"));
    assert_eq!((m.width, m.height), (Some(640), Some(480)));
    assert_eq!(m.format.as_deref(), Some("JPEG"));
    assert_eq!(m.tags, vec!["like".to_string()]);
    assert!(db.get_metadata(12345).is_none());
}
