use file_utils::{buffer_for_each_line, buffer_for_each_line_reverse};

fn collect_forward(buffer: &[u8]) -> Vec<String> {
    let mut lines = Vec::new();
    buffer_for_each_line(buffer, |line| {
        lines.push(line.to_string());
        false
    });
    lines
}

fn collect_reverse(buffer: &[u8]) -> Vec<String> {
    let mut lines = Vec::new();
    buffer_for_each_line_reverse(buffer, |line| {
        lines.push(line.to_string());
        false
    });
    lines
}

#[test]
fn test_buffer_for_each_line() {
    let buffer = b"Hello\nworld\n";
    let mut lines = Vec::new();
    buffer_for_each_line(buffer, |line| {
        lines.push(line.to_string());
        false
    });
    assert_eq!(lines, vec!["Hello", "world"]);
}

#[test]
fn test_buffer_for_each_line_reverse() {
    let buffer = b"Hello\nworld\n";
    let mut lines = Vec::new();
    buffer_for_each_line_reverse(buffer, |line| {
        lines.push(line.to_string());
        false
    });
    assert_eq!(lines, vec!["world", "Hello"]);
}

#[test]
fn test_buffer_for_each_line_empty() {
    let buffer = b"";
    let mut lines = Vec::new();
    buffer_for_each_line(buffer, |line| {
        lines.push(line.to_string());
        false
    });
    assert_eq!(lines, Vec::<String>::new());
}

#[test]
fn test_buffer_for_each_line_reverse_empty() {
    let buffer = b"";
    let mut lines = Vec::new();
    buffer_for_each_line_reverse(buffer, |line| {
        lines.push(line.to_string());
        false
    });
    assert_eq!(lines, Vec::<String>::new());
}

#[test]
fn crlf_endings_are_stripped_both_ways() {
    assert_eq!(collect_forward(b"one\r\ntwo\r\n"), vec!["one", "two"]);
    assert_eq!(collect_reverse(b"one\r\ntwo\r\n"), vec!["two", "one"]);
}

#[test]
fn only_one_carriage_return_is_stripped() {
    assert_eq!(collect_forward(b"a\r\r\nb"), vec!["a\r", "b"]);
    assert_eq!(collect_reverse(b"a\r\r\nb"), vec!["b", "a\r"]);
}

#[test]
fn unterminated_last_line_is_a_line() {
    assert_eq!(collect_forward(b"first\nlast"), vec!["first", "last"]);
    assert_eq!(collect_reverse(b"first\nlast"), vec!["last", "first"]);
    assert_eq!(collect_forward(b"x"), vec!["x"]);
    assert_eq!(collect_reverse(b"x"), vec!["x"]);
}

#[test]
fn trailing_carriage_return_without_line_feed_is_stripped() {
    assert_eq!(collect_forward(b"a\r"), vec!["a"]);
    assert_eq!(collect_reverse(b"a\r"), vec!["a"]);
}

#[test]
fn empty_lines_are_kept() {
    assert_eq!(collect_forward(b"\n\n"), vec!["", ""]);
    assert_eq!(collect_reverse(b"\n\n"), vec!["", ""]);
    assert_eq!(collect_forward(b"a\n\nb\n"), vec!["a", "", "b"]);
    assert_eq!(collect_reverse(b"a\n\nb\n"), vec!["b", "", "a"]);
    assert_eq!(collect_forward(b"\r\n"), vec![""]);
    assert_eq!(collect_reverse(b"\r\n"), vec![""]);
}

#[test]
fn reverse_is_forward_backwards() {
    let buffers: Vec<&[u8]> = vec![
        b"Hello\nworld\n",
        b"a\n\nb",
        b"\n",
        b"x\r\ny\rz\n\r\n",
        b"one line",
    ];
    for b in buffers {
        let mut forward = collect_forward(b);
        forward.reverse();
        assert_eq!(collect_reverse(b), forward);
    }
}

#[test]
fn reversed_lines_rebuild_the_buffer() {
    let mut lines = collect_reverse(b"x\r\ny\n\nz");
    lines.reverse();
    let mut rebuilt = String::new();
    for l in lines {
        rebuilt.push_str(&l);
        rebuilt.push('\n');
    }
    assert_eq!(rebuilt, "x\ny\n\nz\n");
}

#[test]
fn multibyte_text_is_handed_over() {
    assert_eq!(collect_forward("héllo\nwörld\n".as_bytes()), vec!["héllo", "wörld"]);
    assert_eq!(collect_reverse("héllo\nwörld\n".as_bytes()), vec!["wörld", "héllo"]);
}

#[test]
fn forward_walk_stops_when_asked() {
    let mut seen = Vec::new();
    let n = buffer_for_each_line(b"a\nb\nc\n", |line| {
        seen.push(line.to_string());
        line == "b"
    });
    assert_eq!(n, 2);
    assert_eq!(seen, vec!["a", "b"]);
}

#[test]
fn reverse_walk_stops_when_asked() {
    let mut seen = Vec::new();
    let n = buffer_for_each_line_reverse(b"a\nb\nc\n", |line| {
        seen.push(line.to_string());
        true
    });
    assert_eq!(n, 1);
    assert_eq!(seen, vec!["c"]);
}

#[test]
fn walks_report_every_line_when_not_stopped() {
    assert_eq!(buffer_for_each_line(b"a\nb\nc", |_| false), 3);
    assert_eq!(buffer_for_each_line_reverse(b"a\nb\nc", |_| false), 3);
    assert_eq!(buffer_for_each_line(b"", |_| true), 0);
    assert_eq!(buffer_for_each_line_reverse(b"", |_| true), 0);
}

#[test]
fn reversed_lines_joined_by_line_feeds_rebuild_an_unterminated_buffer() {
    let mut lines = collect_reverse(b"x\r\ny\n\nz\r");
    lines.reverse();
    assert_eq!(lines.join("\n"), "x\ny\n\nz");
}
