use stakker_tui::{Change, Page};

const M0: [u8; 3] = [0xEE, 0x80, 0x80];
const M1: [u8; 3] = [0xEE, 0x80, 0x81];
const M2: [u8; 3] = [0xEE, 0x80, 0x82];

fn cat(parts: &[&[u8]]) -> Vec<u8> {
    let mut v = Vec::new();
    for p in parts {
        v.extend_from_slice(p);
    }
    v
}

fn change(c: &Change) -> (u16, u16, u16, u16, Vec<u8>) {
    (c.x, c.sx, c.shift, c.hfb, c.text.clone())
}

#[test]
fn new_page_rows_hold_one_span() {
    let page = Page::new(2, 5, 0);
    for y in 0..2 {
        assert_eq!(page.line_bytes(y), &cat(&[&[0xFC, 5], &M0])[..]);
    }
    assert_eq!(page.cell_sx(), 1);
}

#[test]
fn negative_sizes_count_as_zero() {
    let mut page = Page::new(-3, -4, 0);
    page.normalize();
    let mut r = page.full();
    assert_eq!(r.write(0, 0, 1, "abc"), 3);
    r.clear(2);
}

#[test]
fn clear_full_page_then_normalize() {
    let mut page = Page::new(2, 5, 0);
    page.full().clear(1);
    page.normalize();
    for y in 0..2 {
        assert_eq!(page.line_bytes(y), &cat(&[&[0xFC, 5], &M1])[..]);
    }
}

#[test]
fn write_abc_in_middle_of_row() {
    let mut before = Page::new(1, 10, 0);
    before.normalize();
    let mut page = Page::new(1, 10, 0);
    let end = page.region(0, 0, 1, 10).write(0, 3, 2, "abc");
    assert_eq!(end, 6);
    page.normalize();
    let expect = cat(&[&[0xFC, 3], &M0, &[0xFC, 7], &M2, b"abc", &M0]);
    assert_eq!(page.line_bytes(0), &expect[..]);
    let diff: Vec<_> = before.difference(&page, 0).iter().map(change).collect();
    assert_eq!(
        diff,
        vec![
            (0, 3, 0, 0, vec![]),
            (3, 1, 0, 2, b"a".to_vec()),
            (4, 1, 0, 2, b"b".to_vec()),
            (5, 1, 0, 2, b"c".to_vec()),
            (6, 4, 0, 0, vec![]),
        ]
    );
}

#[test]
fn write_crossing_left_edge() {
    let mut page = Page::new(1, 5, 0);
    let end = page.full().write(0, -1, 1, "XY");
    assert_eq!(end, 1);
    page.normalize();
    let expect = cat(&[&[0xFC, 5], &M1, b"Y", &M0]);
    assert_eq!(page.line_bytes(0), &expect[..]);
}

#[test]
fn write_crossing_right_edge() {
    let mut page = Page::new(1, 5, 0);
    let end = page.full().write(0, 3, 1, "XYZ");
    assert_eq!(end, 6);
    page.normalize();
    let expect = cat(&[&[0xFC, 3], &M0, &[0xFC, 2], &M1, b"XY"]);
    assert_eq!(page.line_bytes(0), &expect[..]);
}

#[test]
fn write_outside_page_only_measures() {
    let mut page = Page::new(2, 5, 0);
    let before = page.line_bytes(0).to_vec();
    {
        let mut r = page.full();
        assert_eq!(r.write(-1, 0, 1, "abc"), 3);
        assert_eq!(r.write(5, 2, 1, "abcd"), 6);
        assert_eq!(r.write(0, 7, 1, "ab"), 9);
        assert_eq!(r.write(0, -9, 1, "ab"), -7);
    }
    assert_eq!(page.line_bytes(0), &before[..]);
    assert_eq!(page.line_bytes(1), &before[..]);
}

#[test]
fn region_offsets_and_clips() {
    let mut page = Page::new(1, 10, 0);
    {
        let mut outer = page.region(0, 2, 1, 5);
        let mut inner = outer.region(0, 1, 1, 10);
        // Region coordinates: inner starts at page column 3, clipped at 7.
        assert_eq!(inner.write(0, 0, 1, "abcdef"), 6);
    }
    page.normalize();
    let expect = cat(&[&[0xFC, 3], &M0, &[0xFC, 7], &M1, b"abcd", &M0]);
    assert_eq!(page.line_bytes(0), &expect[..]);
}

#[test]
fn region_entirely_off_page_changes_nothing() {
    let mut page = Page::new(2, 4, 0);
    let before = page.line_bytes(0).to_vec();
    page.region(0, -10, 2, 3).clear(3);
    page.region(0, 10, 2, 3).clear(3);
    page.region(-10, 0, 3, 4).clear(3);
    page.region(5, 0, 3, 4).clear(3);
    page.normalize();
    assert_eq!(page.line_bytes(0), &before[..]);
    assert_eq!(page.line_bytes(1), &before[..]);
}

#[test]
fn partial_clear_appends_then_normalizes() {
    let mut page = Page::new(1, 6, 0);
    page.region(0, 2, 1, 2).clear(1);
    let log = cat(&[&[0xFC, 6], &M0, &[0xFE, 2, 2], &M1]);
    assert_eq!(page.line_bytes(0), &log[..]);
    page.normalize();
    let expect = cat(&[&[0xFC, 2], &M0, &[0xFC, 2], &M1, &[0xFC, 2], &M0]);
    assert_eq!(page.line_bytes(0), &expect[..]);
}

#[test]
fn normalize_twice_is_normalize_once() {
    let mut page = Page::new(2, 8, 0);
    {
        let mut r = page.full();
        r.write(0, 1, 3, "hello");
        r.write(0, 0, 4, "ab");
        r.region(1, 2, 1, 3).clear(5);
    }
    page.normalize();
    let once: Vec<Vec<u8>> = (0..2).map(|y| page.line_bytes(y).to_vec()).collect();
    page.normalize();
    let twice: Vec<Vec<u8>> = (0..2).map(|y| page.line_bytes(y).to_vec()).collect();
    assert_eq!(once, twice);
    let expect0 = cat(&[&[0xFC, 8], &[0xEE, 0x80, 0x84], b"ab", &[0xEE, 0x80, 0x83], b"ello", &M0]);
    assert_eq!(once[0], expect0);
}

#[test]
fn normalized_spans_cover_width() {
    let mut page = Page::new(1, 6, 0);
    {
        let mut r = page.full();
        r.write(0, 4, 1, "zz");
        r.write(0, 1, 2, "y");
    }
    page.normalize();
    // Walk the span headers and add up their widths.
    let data = page.line_bytes(0);
    let mut i = 0;
    let mut total = 0;
    while i < data.len() {
        if data[i] >= 0xFC {
            assert_eq!(data[i], 0xFC);
            total += data[i + 1] as usize;
            i += 2;
        } else {
            i += 1;
        }
    }
    assert_eq!(total, 6);
}

#[test]
fn clear_twice_gives_no_difference() {
    let mut a = Page::new(1, 5, 0);
    a.full().clear(0);
    a.normalize();
    let mut b = Page::new(1, 5, 0);
    b.full().clear(0);
    b.full().clear(0);
    b.normalize();
    assert_eq!(a.difference(&b, 0).len(), 0);
}

#[test]
fn difference_of_changed_glyph() {
    let mut a = Page::new(1, 3, 0);
    a.full().write(0, 0, 0, "abc");
    a.normalize();
    let mut b = Page::new(1, 3, 0);
    b.full().write(0, 0, 0, "aXc");
    b.normalize();
    let diff: Vec<_> = a.difference(&b, 0).iter().map(change).collect();
    assert_eq!(diff, vec![(1, 1, 0, 0, b"X".to_vec())]);
}

#[test]
fn measure_skips_markers() {
    let mut page = Page::new(1, 1, 0);
    assert_eq!(page.measure(""), 0);
    assert_eq!(page.measure("abc"), 3);
    assert_eq!(page.measure("a\u{E005}b\u{E000}"), 2);
    assert_eq!(page.measure("\u{E001}"), 0);
    assert_eq!(page.measure("é€😀"), 3);
}

#[test]
fn markers_in_text_change_colour() {
    let mut page = Page::new(1, 4, 0);
    page.full().write(0, 0, 1, "a\u{E002}b");
    page.normalize();
    let expect = cat(&[&[0xFC, 4], &M1, b"a", &M2, b"b", &M0]);
    assert_eq!(page.line_bytes(0), &expect[..]);
}

#[test]
fn large_colour_codes_clamp_to_last_marker() {
    let mut page = Page::new(1, 2, 7000);
    page.normalize();
    assert_eq!(page.line_bytes(0), &[0xFC, 2, 0xEF, 0xA3, 0xBF][..]);
}

#[test]
fn wide_page_uses_two_byte_arguments() {
    let page = Page::new(1, 300, 0);
    assert_eq!(page.line_bytes(0), &cat(&[&[0xFC, 0x81, 0x2C], &M0])[..]);
}

#[test]
fn width_one_page() {
    let mut page = Page::new(1, 1, 0);
    assert_eq!(page.full().write(0, 0, 1, "ab"), 2);
    page.normalize();
    assert_eq!(page.line_bytes(0), &cat(&[&[0xFC, 1], &M1, b"a"])[..]);
}

#[test]
fn zero_width_rows_hold_one_empty_span() {
    let mut page = Page::new(2, 0, 3);
    let expect = [0xFC, 0, 0xEE, 0x80, 0x83];
    assert_eq!(page.line_bytes(0), &expect[..]);
    page.full().write(0, 0, 1, "ab");
    page.normalize();
    assert_eq!(page.line_bytes(0), &expect[..]);
    assert_eq!(page.line_bytes(1), &expect[..]);
}

#[test]
fn zero_sized_page() {
    let mut page = Page::new(0, 0, 0);
    page.full().clear(1);
    page.normalize();
    assert_eq!(page.full().field(0, 0, 0, 1, 2, "abc"), None);
}

#[test]
fn field_wraps_text() {
    let mut page = Page::new(2, 10, 0);
    let curs = page.full().field(0, 3, 0, 1, 2, "hello world!");
    assert_eq!(curs, Some((0, 3)));
    page.normalize();
    assert_eq!(page.line_bytes(0), &cat(&[&[0xFC, 10], &M0, b"hello worl"])[..]);
    assert_eq!(page.line_bytes(1), &cat(&[&[0xFC, 10], &M0, b"d!", &M1])[..]);
}

#[test]
fn field_with_shift() {
    let mut page = Page::new(2, 10, 0);
    let curs = page.full().field(2, 3, 0, 1, 2, "hello world!");
    assert_eq!(curs, Some((0, 2)));
    page.normalize();
    assert_eq!(page.line_bytes(0), &cat(&[&[0xFC, 10], &M2, b"<", &M0, b"llo world"])[..]);
    assert_eq!(page.line_bytes(1), &cat(&[&[0xFC, 10], &M0, b"!", &M1])[..]);
}

#[test]
fn field_overflow_marker() {
    let mut page = Page::new(1, 5, 0);
    let curs = page.full().field(0, 0, 0, 1, 2, "abcdefgh");
    assert_eq!(curs, Some((0, 0)));
    page.normalize();
    assert_eq!(page.line_bytes(0), &cat(&[&[0xFC, 5], &M0, b"abcd", &M2, b">"])[..]);
}

#[test]
fn field_cursor_at_end_of_text() {
    let mut page = Page::new(2, 10, 0);
    let curs = page.full().field(0, 3, 0, 1, 2, "abc");
    assert_eq!(curs, Some((0, 3)));
    page.normalize();
    assert_eq!(page.line_bytes(0), &cat(&[&[0xFC, 10], &M0, b"abc", &M1])[..]);
    assert_eq!(page.line_bytes(1), &cat(&[&[0xFC, 10], &M1])[..]);
}

#[test]
fn field_empty_text() {
    let mut page = Page::new(1, 4, 0);
    let curs = page.full().field(0, 0, 0, 1, 2, "");
    assert_eq!(curs, Some((0, 0)));
    page.normalize();
    assert_eq!(page.line_bytes(0), &cat(&[&[0xFC, 4], &M1])[..]);
}

#[test]
fn empty_write_changes_nothing() {
    let mut page = Page::new(1, 4, 0);
    let before = page.line_bytes(0).to_vec();
    assert_eq!(page.full().write(0, 2, 1, ""), 2);
    assert_eq!(page.line_bytes(0), &before[..]);
}
