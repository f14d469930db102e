use lv::cache::{schedule_preload, DecodedImage, Preloader, TexInfo, TextureCache, UploadPlan};
use lv::store::Db;

fn tex(id: u32) -> TexInfo {
    TexInfo { gl_id: id, width: 1, height: 1 }
}

fn upload(c: &mut TextureCache, path: &str, id: u32) -> Option<TexInfo> {
    match c.begin_upload(path) {
        UploadPlan::Cached => None,
        UploadPlan::Admit(victim) => {
            c.finish_upload(path, tex(id));
            victim
        }
    }
}

#[test]
fn lru_evicts_oldest_at_capacity() {
    let mut c = TextureCache::new(2);
    assert_eq!(upload(&mut c, "/a", 1), None);
    assert_eq!(upload(&mut c, "/b", 2), None);
    assert!(c.has("/a") && c.has("/b"));
    assert_eq!(c.get("/a"), Some(tex(1)));
    // get does not refresh; touch does
    c.touch("/a");
    assert_eq!(upload(&mut c, "/c", 3), Some(tex(2)));
    assert!(!c.has("/b"));
    assert_eq!(c.entries.len(), 2);
    assert_eq!(c.begin_upload("/a"), UploadPlan::Cached);
    let all = c.drain();
    assert_eq!(all.len(), 2);
    assert!(!c.has("/a"));
    c.pump_uploads();
}

#[test]
fn cache_never_exceeds_capacity() {
    let mut c = TextureCache::new(20);
    for i in 0..100u32 {
        upload(&mut c, &format!("/p/{}.jpg", i), i);
        assert!(c.entries.len() <= 20);
    }
    assert_eq!(c.get("/p/80.jpg"), Some(tex(80)));
    assert_eq!(c.get("/p/79.jpg"), None);
}

#[test]
fn preloader_lifecycle() {
    let mut p = Preloader::new();
    assert!(p.schedule("/a.jpg"));
    assert!(!p.schedule("/a.jpg"));
    assert!(p.is_pending("/a.jpg"));
    assert!(p.try_take("/a.jpg").is_none());
    p.finish("/a.jpg", Some(DecodedImage { rgba: vec![0; 4], width: 1, height: 1 }));
    p.finish("/a.jpg", Some(DecodedImage { rgba: vec![7; 4], width: 2, height: 1 }));
    let img = p.try_take("/a.jpg").unwrap();
    assert_eq!(img.width, 2);
    assert_eq!(img.rgba, vec![7; 4]);
    assert!(p.try_take("/a.jpg").is_none());
    assert!(!p.is_pending("/a.jpg"));
    assert!(p.schedule("/b.jpg"));
    p.finish("/b.jpg", None);
    assert!(!p.is_pending("/b.jpg") && p.try_take("/b.jpg").is_none());
}

#[test]
fn preload_window_skips_cursor_cached_and_videos() {
    let mut db = Db::new();
    for i in 0..30 {
        let ext = if i == 12 { "mp4" } else { "jpg" };
        db.index_file(&format!("/d/{:02}.{}", i, ext), None, None);
    }
    let files = db.files_by_dir("/d");
    let mut cache = TextureCache::new(20);
    cache.begin_upload("/d/09.jpg");
    cache.finish_upload("/d/09.jpg", tex(1));
    let mut pre = Preloader::new();
    pre.schedule("/d/11.jpg");
    let started = schedule_preload(&mut pre, &cache, &files, 10);
    // window 0..=20 minus the cursor (10), the cached 09, the pending 11 and the video 12
    assert_eq!(started.len(), 17);
    assert!(!started.contains(&"/d/10.jpg".to_string()));
    assert!(!started.contains(&"/d/21.jpg".to_string()));
    assert!(started.contains(&"/d/00.jpg".to_string()));
    assert!(started.contains(&"/d/20.jpg".to_string()));
    assert!(schedule_preload(&mut pre, &cache, &files, 10).is_empty());
}
