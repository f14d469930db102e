use lv::paths::{clean_path, ext_of, has_media_ext, image_exts, is_image, is_media_ext, is_video, str_parent, video_exts};

#[test]
fn ext_of_basic() {
    assert_eq!(ext_of("photo.jpg"), "jpg");
    assert_eq!(ext_of("/home/user/file.PNG"), "png");
    assert_eq!(ext_of("video.MKV"), "mkv");
    assert_eq!(ext_of("noext"), "noext");
    assert_eq!(ext_of("archive.tar.gz"), "gz");
    assert_eq!(ext_of(".hidden"), "hidden");
}

#[test]
fn main_ext_of_basic() {
    assert_eq!(ext_of("photo.jpg"), "jpg");
    assert_eq!(ext_of("/home/user/file.PNG"), "png");
    assert_eq!(ext_of("video.MKV"), "mkv");
    assert_eq!(ext_of("noext"), "noext");
    assert_eq!(ext_of("archive.tar.gz"), "gz");
    assert_eq!(ext_of(".hidden"), "hidden");
}

fn check_is_image_known_exts() {
    assert!(is_image("photo.jpg"));
    assert!(is_image("photo.JPEG"));
    assert!(is_image("/path/to/pic.png"));
    assert!(is_image("img.webp"));
    assert!(is_image("img.avif"));
    assert!(is_image("img.gif"));
    assert!(!is_image("video.mp4"));
    assert!(!is_image("file.txt"));
    assert!(!is_image("file.mkv"));
}

#[test]
fn is_image_known_exts() {
    check_is_image_known_exts();
}

#[test]
fn main_is_image_known_exts() {
    check_is_image_known_exts();
}

fn check_is_video_known_exts() {
    assert!(is_video("clip.mp4"));
    assert!(is_video("clip.MKV"));
    assert!(is_video("/tmp/movie.avi"));
    assert!(is_video("file.mov"));
    assert!(is_video("file.webm"));
    assert!(!is_video("photo.jpg"));
    assert!(!is_video("file.txt"));
    assert!(!is_video("doc.pdf"));
}

#[test]
fn is_video_known_exts() {
    check_is_video_known_exts();
}

#[test]
fn main_is_video_known_exts() {
    check_is_video_known_exts();
}

fn check_neither() {
    assert!(!is_image("readme.md"));
    assert!(!is_video("readme.md"));
    assert!(!is_image("data.json"));
    assert!(!is_video("data.json"));
}

#[test]
fn neither_image_nor_video() {
    check_neither();
}

#[test]
fn main_neither_image_nor_video() {
    check_neither();
}

#[test]
fn ext_of_double_extension() {
    assert_eq!(ext_of("archive.tar.gz"), "gz");
    assert_eq!(ext_of("photo.backup.jpg"), "jpg");
}

#[test]
fn main_ext_of_double_extension() {
    assert_eq!(ext_of("archive.tar.gz"), "gz");
    assert_eq!(ext_of("photo.backup.jpg"), "jpg");
}

#[test]
fn ext_of_dotfile() {
    assert_eq!(ext_of(".gitignore"), "gitignore");
    assert_eq!(ext_of(".hidden"), "hidden");
}

#[test]
fn main_ext_of_dotfile() {
    assert_eq!(ext_of(".gitignore"), "gitignore");
    assert_eq!(ext_of(".hidden"), "hidden");
}

#[test]
fn ext_of_empty_string() {
    assert_eq!(ext_of(""), "");
}

#[test]
fn main_ext_of_empty_string() {
    assert_eq!(ext_of(""), "");
}

#[test]
fn ext_of_trailing_dot() {
    assert_eq!(ext_of("file."), "");
}

#[test]
fn main_ext_of_trailing_dot() {
    assert_eq!(ext_of("file."), "");
}

#[test]
fn ext_of_unicode_filename() {
    assert_eq!(ext_of("/写真/café.JPG"), "jpg");
    assert_eq!(ext_of("/📸/photo.PNG"), "png");
}

#[test]
fn main_ext_of_unicode_filename() {
    assert_eq!(ext_of("/写真/café.JPG"), "jpg");
    assert_eq!(ext_of("/📸/photo.PNG"), "png");
}

#[test]
fn ext_of_spaces_in_path() {
    assert_eq!(ext_of("/my photos/vacation pic.jpg"), "jpg");
}

#[test]
fn main_ext_of_spaces_in_path() {
    assert_eq!(ext_of("/my photos/vacation pic.jpg"), "jpg");
}

#[test]
fn clean_path_strips_win_prefix() {
    assert_eq!(clean_path(r"\\?\C:\Users\test"), "C:\\Users\\test");
    assert_eq!(clean_path(r"\\?\C:\Users\shirk3y\Downloads"), "C:\\Users\\shirk3y\\Downloads");
}

#[test]
fn clean_path_preserves_unix() {
    assert_eq!(clean_path("/home/user/pics"), "/home/user/pics");
    assert_eq!(clean_path("/tmp/test.jpg"), "/tmp/test.jpg");
}

#[test]
fn clean_path_preserves_plain_windows() {
    assert_eq!(clean_path("C:\\Users\\test"), "C:\\Users\\test");
}

#[test]
fn clean_path_empty() {
    assert_eq!(clean_path(""), "");
}

#[test]
fn clean_path_only_prefix() {
    assert_eq!(clean_path(r"\\?\"), "");
}

#[test]
fn unsupported_ext_detected() {
    assert!(!is_image("document.pdf"));
    assert!(!is_video("document.pdf"));
    assert!(!is_image("archive.zip"));
    assert!(!is_video("archive.zip"));
    assert!(!is_image("binary.exe"));
    assert!(!is_video("binary.exe"));
    assert!(!is_image("data.json"));
    assert!(!is_video("data.json"));
}

fn check_image_exts_subset() {
    for ext in image_exts() {
        if ext == "svg" || ext == "avif" {
            continue;
        }
        assert!(is_media_ext(ext), "IMAGE_EXT '{}' not in scanner MEDIA_EXTENSIONS", ext);
    }
}

#[test]
fn image_exts_subset_of_media() {
    check_image_exts_subset();
}

#[test]
fn main_image_exts_subset_of_media() {
    check_image_exts_subset();
}

fn check_video_exts_subset() {
    for ext in video_exts() {
        assert!(is_media_ext(ext), "VIDEO_EXT '{}' not in scanner MEDIA_EXTENSIONS", ext);
    }
}

#[test]
fn video_exts_subset_of_media() {
    check_video_exts_subset();
}

#[test]
fn main_video_exts_subset_of_media() {
    check_video_exts_subset();
}

#[test]
fn media_ext_images() {
    for ext in &["jpg", "jpeg", "png", "gif", "bmp", "webp", "tiff", "tif", "heic", "heif", "ico"] {
        assert!(is_media_ext(ext), "{} should be media", ext);
    }
}

#[test]
fn media_ext_videos() {
    for ext in &["mp4", "avi", "mov", "mkv", "webm", "flv", "wmv", "m4v", "3gp"] {
        assert!(is_media_ext(ext), "{} should be media", ext);
    }
}

#[test]
fn media_ext_case_insensitive() {
    assert!(is_media_ext("JPG"));
    assert!(is_media_ext("Png"));
    assert!(is_media_ext("MKV"));
    assert!(is_media_ext("WebM"));
}

#[test]
fn non_media_ext_rejected() {
    for ext in &[
        "txt", "pdf", "doc", "rs", "html", "css", "json", "xml", "zip", "exe", "sh", "py", "svg", "avif",
    ] {
        assert!(!is_media_ext(ext), "{} should NOT be media", ext);
    }
}

#[test]
fn empty_ext_rejected() {
    assert!(!is_media_ext(""));
}

#[test]
fn has_media_ext_recognizes_images() {
    assert!(has_media_ext("/a/photo.jpg"));
    assert!(has_media_ext("/a/photo.PNG"));
    assert!(has_media_ext("/a/photo.webp"));
}

#[test]
fn has_media_ext_recognizes_videos() {
    assert!(has_media_ext("/a/clip.mp4"));
    assert!(has_media_ext("/a/clip.MKV"));
}

#[test]
fn has_media_ext_rejects_non_media() {
    assert!(!has_media_ext("/a/readme.txt"));
    assert!(!has_media_ext("/a/script.rs"));
    assert!(!has_media_ext("/a/.gitignore"));
}

#[test]
fn has_media_ext_no_extension() {
    assert!(!has_media_ext("/a/noext"));
    assert!(!has_media_ext("/a/"));
}

#[test]
fn has_media_ext_windows_backslash() {
    assert!(has_media_ext(r"C:\Users\test\photo.jpg"));
    assert!(has_media_ext(r"C:\Users\test\clip.mp4"));
    assert!(!has_media_ext(r"C:\Users\test\readme.txt"));
}

#[test]
fn has_media_ext_win_prefixed() {
    assert!(has_media_ext(r"\\?\C:\Users\test\photo.jpg"));
    assert!(!has_media_ext(r"\\?\C:\Users\test\readme.txt"));
}

#[test]
fn str_parent_unix() {
    assert_eq!(str_parent("/a/b/c.jpg"), "/a/b");
    assert_eq!(str_parent("/photo.jpg"), "");
}

#[test]
fn str_parent_windows() {
    assert_eq!(str_parent(r"C:\Users\test\photo.jpg"), r"C:\Users\test");
    assert_eq!(str_parent(r"C:\photo.jpg"), "C:");
}

#[test]
fn str_parent_no_separator() {
    assert_eq!(str_parent("photo.jpg"), "");
}

#[test]
fn str_parent_mixed_separators() {
    assert_eq!(str_parent(r"/mnt/c\Users\test\photo.jpg"), r"/mnt/c\Users\test");
    assert_eq!(str_parent(r"C:\Users/test/photo.jpg"), r"C:\Users/test");
}

#[test]
fn is_under_rejects_string_prefix() {
    assert!(lv::paths::is_under("/photos/a", "/photos"));
    assert!(lv::paths::is_under("/photos", "/photos"));
    assert!(!lv::paths::is_under("/photos", "/photo"));
}
