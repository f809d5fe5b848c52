use stakker_tui::{Features, TermOut};
use std::io::Write;

fn out() -> TermOut {
    TermOut::new(Features { colour_256: false })
}

fn flushed(t: &mut TermOut) -> Vec<u8> {
    t.flush();
    let v = t.data_to_flush().to_vec();
    t.drain_flush();
    v
}

#[test]
fn num_clamps_and_prints_digits() {
    let mut t = out();
    t.num(-5).asc(',').num(0).asc(',').num(7).asc(',').num(42);
    t.asc(',').num(123).asc(',').num(999).asc(',').num(1000);
    assert_eq!(flushed(&mut t), b"0,0,7,42,123,999,999".to_vec());
}

#[test]
fn at_takes_coordinates_modulo_size() {
    let mut t = out();
    t.set_size(24, 80);
    assert_eq!(t.size(), (24, 80));
    assert_eq!((t.sy(), t.sx()), (24, 80));
    t.at(0, 0);
    assert_eq!(flushed(&mut t), b"\x1b[1;1H".to_vec());
    t.at(-1, -1);
    assert_eq!(flushed(&mut t), b"\x1b[24;80H".to_vec());
    t.at(25, -10);
    assert_eq!(flushed(&mut t), b"\x1b[2;71H".to_vec());
    t.scroll_up();
    assert_eq!(flushed(&mut t), b"\x1b[24;1H\n".to_vec());
}

#[test]
fn hfb_colour_sequence() {
    let mut t = out();
    t.hfb(112);
    assert_eq!(flushed(&mut t), b"\x1b[0;1;34;41m".to_vec());
    t.hfb(70);
    assert_eq!(flushed(&mut t), b"\x1b[0;37;40m".to_vec());
    t.hfb(99);
    assert_eq!(flushed(&mut t), b"\x1b[0;39;49m".to_vec());
}

#[test]
fn fixed_sequences() {
    let mut t = out();
    t.underline_cursor().block_cursor().show_cursor().hide_cursor();
    assert_eq!(flushed(&mut t), b"\x1b[34h\x1b[34l\x1b[?25h\x1b[?0c\x1b[?25l\x1b[?1c".to_vec());
    t.origin().erase_eol().clear().attr_reset().full_reset().utf8_mode();
    assert_eq!(flushed(&mut t), b"\x1b[H\x1b[K\x1b[2J\x1b[0m\x1bc\x1b%G".to_vec());
    t.attr("1;31").csi().esc('x').out("é").bytes(&[1, 2]).byt(3).spaces(3).spaces(-2);
    assert_eq!(flushed(&mut t), b"\x1b[1;31m\x1b[\x1bx\xc3\xa9\x01\x02\x03   ".to_vec());
}

#[test]
fn flush_marks_only_what_is_there() {
    let mut t = out();
    t.out("ab");
    t.flush();
    t.out("cd");
    assert_eq!(t.data_to_flush(), b"ab");
    t.drain_flush();
    assert_eq!(t.data_to_flush(), b"");
    t.flush();
    assert_eq!(t.data_to_flush(), b"cd");
    t.discard();
    t.flush();
    assert_eq!(t.data_to_flush(), b"");
}

#[test]
fn save_cleanup_moves_buffer() {
    let mut t = out();
    assert!(t.take_cleanup().is_none());
    t.out("bye");
    t.flush();
    t.save_cleanup();
    t.flush();
    assert_eq!(t.data_to_flush(), b"");
    assert_eq!(t.take_cleanup(), Some(b"bye".to_vec()));
    assert!(t.take_cleanup().is_none());
}

#[test]
fn features_are_kept() {
    let t = TermOut::new(Features { colour_256: true });
    assert!(t.features().colour_256);
    assert_eq!(t.size(), (0, 0));
}

#[test]
fn io_write_appends_to_buffer() {
    let mut t = out();
    t.write_all(b"ab").unwrap();
    assert_eq!(t.write(b"cd").unwrap(), 2);
    Write::flush(&mut t).unwrap();
    TermOut::flush(&mut t);
    assert_eq!(t.data_to_flush(), b"abcd");
}
