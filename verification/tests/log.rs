use historypwd::tail::for_tail_lines_newest_first;
use historypwd::tail::handle_tail_line;
use historypwd::tail::parse_pwdlog_line;
use historypwd::tail::TailReader;
use historypwd::tail::TailStep;

/// The lines of a file that a reader hands out, until `stop` says so.
fn lines_of(content: &[u8], limit: usize, mut stop: impl FnMut(usize) -> bool) -> Vec<String> {
    let mut reader = TailReader::new(content.len() as u64, limit);
    let mut lines = Vec::new();
    loop {
        match for_tail_lines_newest_first(&mut reader) {
            TailStep::Read { position, length } => {
                let start = position as usize;
                assert_eq!(length, reader.wanted());
                reader.supply(&content[start..start + length]);
            }
            TailStep::Line(line) => {
                lines.push(handle_tail_line(&line));
                if stop(lines.len()) {
                    return lines;
                }
            }
            TailStep::Finished => return lines,
        }
    }
}

fn all_lines(content: &[u8]) -> Vec<String> {
    lines_of(content, usize::MAX, |_| false)
}

#[test]
fn visits_tail_lines_newest_first_and_respects_limit() {
    let lines = lines_of(b"one\ntwo\nthree\nfour\n", 3, |_| false);
    assert_eq!(lines, vec!["four", "three", "two"]);
}

#[test]
fn visits_tail_lines_across_chunks_and_stops_early() {
    let long = "x".repeat(9000);
    let content = format!("old\n{long}\nnewest-without-trailing-newline");
    let lines = lines_of(content.as_bytes(), 10, |count| count == 2);
    assert_eq!(
        lines,
        vec!["newest-without-trailing-newline".to_string(), long]
    );
}

#[test]
fn empty_lines_are_handed_out_but_for_the_first() {
    assert_eq!(all_lines(b""), Vec::<String>::new());
    assert_eq!(all_lines(b"\n"), Vec::<String>::new());
    assert_eq!(all_lines(b"\n\n"), vec![""]);
    assert_eq!(all_lines(b"\na"), vec!["a"]);
    assert_eq!(all_lines(b"a\n\nb\n\n"), vec!["", "b", "", "a"]);
    assert_eq!(lines_of(b"a\nb", 0, |_| false), Vec::<String>::new());
}

#[test]
fn lines_make_up_the_text_whatever_the_chunks() {
    for length in [1, 8190, 8191, 8192, 8193, 16383, 16384, 16385, 20000] {
        for every in [1, 2, 7, 100, 8191, 8192, 8193, 30000] {
            let content: Vec<u8> = (0..length)
                .map(|i: usize| if i % every == every - 1 { b'\n' } else { b'a' + (i % 26) as u8 })
                .collect();
            let text = String::from_utf8(content.clone()).unwrap();
            let mut expected: Vec<&str> = text.lines().rev().collect();
            if expected.last() == Some(&"") {
                expected.pop();
            }
            assert_eq!(all_lines(&content), expected, "{length} {every}");
            let few = lines_of(&content, 3, |_| false);
            assert_eq!(few, expected[..expected.len().min(3)].to_vec(), "{length} {every}");
        }
    }
}

#[test]
fn a_carriage_return_at_the_end_is_dropped() {
    assert_eq!(all_lines(b"a\r\nb\r\r\nc\rd"), vec!["c\rd", "b\r", "a"]);
    assert_eq!(handle_tail_line(b"\r"), "");
    assert_eq!(handle_tail_line(b""), "");
}

#[test]
fn lines_that_are_no_text_have_replacement_characters() {
    assert_eq!(handle_tail_line(b"a\xffb\r"), "a\u{fffd}b");
    assert_eq!(handle_tail_line(b"\xe2\x82"), "\u{fffd}");
    assert_eq!(handle_tail_line("h\u{e9}".as_bytes()), "h\u{e9}");
}

#[test]
fn log_lines_have_three_fields() {
    let fields = |line: &str| parse_pwdlog_line(line);
    assert_eq!(
        fields("12\t/home/me\tls -l"),
        Some(("/home/me".to_string(), "ls -l".to_string()))
    );
    assert_eq!(fields("1\t/a\tx\ty"), Some(("/a".to_string(), "x\ty".to_string())));
    assert_eq!(fields("\t\t"), Some((String::new(), String::new())));
    assert_eq!(fields("1\t/a"), None);
    assert_eq!(fields("1"), None);
    assert_eq!(fields(""), None);
}
