use lv::timefmt::{is_leap, iso_lite};

#[test]
fn leap_years() {
    assert!(is_leap(2000));
    assert!(is_leap(2024));
    assert!(is_leap(1600));
    assert!(is_leap(2400));
}

#[test]
fn non_leap_years() {
    assert!(!is_leap(1900));
    assert!(!is_leap(2100));
    assert!(!is_leap(2023));
    assert!(!is_leap(2025));
    assert!(!is_leap(1));
}

#[test]
fn iso_lite_epoch_zero() {
    assert_eq!(iso_lite(0), "1970-01-01T00:00:00Z");
}

#[test]
fn iso_lite_known_dates() {
    assert_eq!(iso_lite(1704067200), "2024-01-01T00:00:00Z");
    assert_eq!(iso_lite(946684800), "2000-01-01T00:00:00Z");
}

#[test]
fn iso_lite_with_time() {
    assert_eq!(iso_lite(45045), "1970-01-01T12:30:45Z");
}

#[test]
fn iso_lite_leap_day() {
    assert_eq!(iso_lite(1709164800), "2024-02-29T00:00:00Z");
}

#[test]
fn iso_lite_end_of_year() {
    assert_eq!(iso_lite(1704067199), "2023-12-31T23:59:59Z");
}
