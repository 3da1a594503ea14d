use file_utils::{LineWalker, ReverseLineWalker};

#[test]
fn line_walker_hands_out_byte_lines() {
    let buf = b"ab\r\ncd\n";
    let mut w = LineWalker::new(buf);
    assert_eq!(w.next_line(), Some(&b"ab"[..]));
    assert_eq!(w.next_line(), Some(&b"cd"[..]));
    assert_eq!(w.next_line(), None);
    assert_eq!(w.next_line(), None);
}

#[test]
fn reverse_line_walker_hands_out_byte_lines() {
    let buf = b"ab\r\ncd\n";
    let mut w = ReverseLineWalker::new(buf);
    assert_eq!(w.next_line(), Some(&b"cd"[..]));
    assert_eq!(w.next_line(), Some(&b"ab"[..]));
    assert_eq!(w.next_line(), None);
    assert_eq!(w.next_line(), None);
}

#[test]
fn walkers_take_invalid_text_as_bytes() {
    let buf = b"\xff\n\xfe";
    let mut w = LineWalker::new(buf);
    assert_eq!(w.next_line(), Some(&b"\xff"[..]));
    assert_eq!(w.next_line(), Some(&b"\xfe"[..]));
    assert_eq!(w.next_line(), None);
}
