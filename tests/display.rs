use lv::display::{hide_pointer, seek_seconds, show_spinner, volume_step};
use lv::display::{cold_load_outcome, decode_failure, error_for, plan_display, ColdLoad, DisplayPlan, VideoDebounce};
use lv::paths::{is_image, is_video};

#[test]
fn file_not_found_detected_by_path_exists() {
    let missing = std::path::Path::new("/nonexistent/file/photo.jpg");
    assert!(!missing.exists());
}

#[test]
fn error_message_tuple_structure() {
    let err: Option<(String, String)> = Some(("File not found".into(), "photo.jpg".into()));
    assert!(err.is_some());
    let (msg, fname) = err.unwrap();
    assert_eq!(msg, "File not found");
    assert_eq!(fname, "photo.jpg");
}

#[test]
fn error_message_none_means_no_error() {
    let err: Option<(String, String)> = None;
    assert!(err.is_none());
}

#[test]
fn error_message_decode_fail_format() {
    let cold_path = "/home/user/photos/broken.webp";
    let fname = cold_path.rsplit('/').next().unwrap_or(cold_path).to_string();
    let err = ("Failed to decode image".to_string(), fname);
    assert_eq!(err.0, "Failed to decode image");
    assert_eq!(err.1, "broken.webp");
    let lib = decode_failure(cold_path);
    assert_eq!(lib, err);
}

#[test]
fn error_message_decode_fail_no_slash() {
    let cold_path = "broken.webp";
    let fname = cold_path.rsplit('/').next().unwrap_or(cold_path).to_string();
    assert_eq!(fname, "broken.webp");
    assert_eq!(decode_failure(cold_path).1, "broken.webp");
}

#[test]
fn error_message_unsupported_type_format() {
    let filename = "document.pdf";
    let err = ("Unsupported file type".to_string(), filename.to_string());
    assert_eq!(err.0, "Unsupported file type");
    assert_eq!(err.1, "document.pdf");
    assert_eq!(error_for(DisplayPlan::Unsupported, filename), Some(err));
}

#[test]
fn slow_frame_window_accumulation() {
    let mut count: u32 = 0;
    let mut worst: f64 = 0.0;
    let mut sum: f64 = 0.0;
    let frames = [9.5, 12.0, 8.1, 25.0, 7.5];
    for &ms in &frames {
        if ms > 8.0 {
            count += 1;
            sum += ms;
            if ms > worst {
                worst = ms;
            }
        }
    }
    assert_eq!(count, 4);
    assert!((worst - 25.0).abs() < 0.001);
    let avg = sum / count as f64;
    assert!((avg - 13.65).abs() < 0.01);
}

#[test]
fn slow_frame_window_empty() {
    let count: u32 = 0;
    let worst: f64 = 0.0;
    assert_eq!(count, 0);
    assert_eq!(worst, 0.0);
}

#[test]
#[allow(unused_assignments)]
fn slow_frame_window_reset() {
    let mut count: u32 = 5;
    let mut worst: f64 = 30.0;
    let mut sum: f64 = 100.0;
    assert!(count > 0 && worst > 0.0 && sum > 0.0);
    count = 0;
    worst = 0.0;
    sum = 0.0;
    assert_eq!(count, 0);
    assert_eq!(worst, 0.0);
    assert_eq!(sum, 0.0);
}

#[test]
fn slow_frame_threshold_is_8ms() {
    let frame_ms = 8.0_f64;
    assert!(!(frame_ms > 8.0), "8.0ms should not be slow");
    let frame_ms = 8.001;
    assert!(frame_ms > 8.0, "8.001ms should be slow");
}

#[test]
fn race_error_cleared_on_valid_image() {
    let mut error_message: Option<(String, String)> = Some(("File not found".into(), "deleted.jpg".into()));
    let path = "/some/valid/photo.jpg";
    if is_image(path) {
        error_message = None;
    }
    assert!(error_message.is_none(), "error should be cleared for valid image");
    assert_eq!(error_for(plan_display(path, true, false, false), "photo.jpg"), None);
}

#[test]
fn race_error_cleared_on_valid_video() {
    let mut error_message: Option<(String, String)> = Some(("File not found".into(), "deleted.jpg".into()));
    let path = "/some/valid/clip.mp4";
    if is_video(path) {
        error_message = None;
    }
    assert!(error_message.is_none(), "error should be cleared for valid video");
}

#[test]
fn race_error_persists_for_unsupported() {
    let mut error_message: Option<(String, String)> = None;
    let path = "document.pdf";
    if !is_image(path) && !is_video(path) {
        error_message = Some(("Unsupported file type".into(), "document.pdf".into()));
    }
    assert!(error_message.is_some());
}

#[test]
fn display_plan_decision_tree() {
    assert_eq!(plan_display("/m/a.jpg", false, false, false), DisplayPlan::NotFound);
    assert_eq!(plan_display("/m/a.jpg", true, true, false), DisplayPlan::ImageCached);
    assert_eq!(plan_display("/m/a.jpg", true, false, true), DisplayPlan::ImageFromPreload);
    assert_eq!(plan_display("/m/a.JPG", true, false, false), DisplayPlan::ImageAsync);
    assert_eq!(plan_display("/m/c.mp4", true, false, false), DisplayPlan::Video);
    assert_eq!(plan_display("/m/readme.txt", true, false, false), DisplayPlan::Unsupported);
    assert_eq!(
        error_for(DisplayPlan::NotFound, "a.jpg"),
        Some(("File not found".to_string(), "a.jpg".to_string()))
    );
}

#[test]
fn cold_load_outcomes() {
    assert_eq!(cold_load_outcome(true, true), ColdLoad::Upload);
    assert_eq!(cold_load_outcome(false, true), ColdLoad::Wait);
    assert_eq!(cold_load_outcome(false, false), ColdLoad::Failed);
}

#[test]
fn video_debounce_loads_once_after_rest() {
    // Five videos, `j` pressed every 50 ms; the frame loop polls every 10 ms.
    let mut deb = VideoDebounce::new();
    let mut loads: Vec<(String, u64)> = Vec::new();
    let mut now: u64 = 0;
    let mut pressed = 0;
    while now <= 1000 {
        if pressed < 5 && now == pressed as u64 * 50 {
            deb.request(&format!("/m/v{}.mp4", pressed + 1), now);
            pressed += 1;
        }
        if let Some(p) = deb.poll(now) {
            loads.push((p, now));
        }
        now += 10;
    }
    assert_eq!(loads.len(), 1);
    assert_eq!(loads[0].0, "/m/v5.mp4");
    assert_eq!(loads[0].1, 200 + 150);
}

#[test]
fn video_debounce_cancelled_by_image() {
    let mut deb = VideoDebounce::new();
    deb.request("/m/v.mp4", 0);
    deb.cancel();
    assert_eq!(deb.poll(500), None);
}

#[test]
fn video_controls() {
    assert_eq!(volume_step(100, true), 105);
    assert_eq!(volume_step(148, true), 150);
    assert_eq!(volume_step(3, false), 0);
    assert_eq!(seek_seconds(true), 15);
    assert_eq!(seek_seconds(false), -5);
    assert!(show_spinner(true, false, false));
    assert!(show_spinner(false, true, false));
    assert!(!show_spinner(false, true, true));
    assert!(hide_pointer(true, 2000));
    assert!(!hide_pointer(true, 1999));
}
