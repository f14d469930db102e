use lv::overlay::glyph_ranges;

#[test]
fn glyph_ranges_terminated() {
    assert_eq!(*glyph_ranges().last().unwrap(), 0);
}

#[test]
fn glyph_ranges_pairs() {
    let all = glyph_ranges();
    let ranges = &all[..all.len() - 1];
    assert_eq!(ranges.len() % 2, 0, "glyph ranges must be pairs");
    for chunk in ranges.chunks(2) {
        assert!(chunk[0] <= chunk[1], "range start {} > end {}", chunk[0], chunk[1]);
    }
}
