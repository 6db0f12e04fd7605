use my_lang::input::{LineMap, LineNum};

fn check_line_text(map: &LineMap, text: &str, line: usize, expected: &str) {
    let ln = LineNum(line);
    let slice = map.line_text(ln, text);
    assert_eq!(slice, expected, "line_text({line}) mismatch");
}

#[test]
fn ascii_without_trailing_newline() {
    let text = "foo\nbar\nbaz";
    // line starts at [0, 4, 8]
    let map = LineMap::new(text);

    assert_eq!(map.line_start(LineNum(1)), 0);
    assert_eq!(map.line_end(LineNum(1)), 3);
    assert_eq!(map.line_start(LineNum(2)), 4);
    assert_eq!(map.line_end(LineNum(2)), 7);
    assert_eq!(map.line_start(LineNum(3)), 8);
    assert_eq!(map.line_end(LineNum(3)), 11);

    check_line_text(&map, text, 1, "foo");
    check_line_text(&map, text, 2, "bar");
    check_line_text(&map, text, 3, "baz");

    // check line number lookup for various bytes
    assert_eq!(map.line_num(0), LineNum(1)); // 'f'
    assert_eq!(map.line_num(3), LineNum(1)); // '\n' belongs to previous
    assert_eq!(map.line_num(4), LineNum(2)); // 'b'
    assert_eq!(map.line_num(8), LineNum(3)); // 'b' of baz
    assert_eq!(map.line_num(text.len() - 1), LineNum(3)); // 'z'
    assert_eq!(map.line_num(text.len()), LineNum(3)); // just after text
}

#[test]
fn ascii_with_trailing_newline() {
    let text = "foo\nbar\nbaz\n";
    // last line is empty but still counted
    let map = LineMap::new(text);

    assert_eq!(map.line_start(LineNum(1)), 0);
    assert_eq!(map.line_start(LineNum(2)), 4);
    assert_eq!(map.line_start(LineNum(3)), 8);
    assert_eq!(map.line_start(LineNum(4)), 12);

    check_line_text(&map, text, 1, "foo");
    check_line_text(&map, text, 2, "bar");
    check_line_text(&map, text, 3, "baz");
    check_line_text(&map, text, 4, ""); // empty trailing line

    // newline at end of line 3
    assert_eq!(map.line_num(11), LineNum(3)); // '\n' after baz
    assert_eq!(map.line_num(12), LineNum(4)); // new empty line
    assert_eq!(map.line_num(text.len()), LineNum(4)); // after last byte
}

#[test]
fn unicode_mixed_lines() {
    let text = "αβγ\nπρσ\n終わり";
    // bytes: αβγ = 6 bytes, πρσ = 6, 終わり = 9
    let map = LineMap::new(text);

    check_line_text(&map, text, 1, "αβγ");
    check_line_text(&map, text, 2, "πρσ");
    check_line_text(&map, text, 3, "終わり");

    assert_eq!(map.line_num(0), LineNum(1)); // α
    assert_eq!(map.line_num(6), LineNum(1)); // '\n'
    assert_eq!(map.line_num(7), LineNum(2)); // π
    assert_eq!(map.line_num(13), LineNum(2)); // '\n'
    assert_eq!(map.line_num(14), LineNum(3)); // 終
    assert_eq!(map.line_num(text.len() - 1), LineNum(3)); // last byte
}

#[test]
fn empty_and_single_line() {
    let empty = "";
    let map = LineMap::new(empty);
    check_line_text(&map, empty, 1, "");
    assert_eq!(map.line_num(0), LineNum(1));

    let single = "one line only";
    let map = LineMap::new(single);
    check_line_text(&map, single, 1, "one line only");
    assert_eq!(map.line_num(0), LineNum(1));
    assert_eq!(map.line_num(single.len()), LineNum(1));
}

#[test]
fn basic() {
    let text = r#""unterminated"#;
    let map = LineMap::new(text);
    check_line_text(&map, text, 1, text);
}

#[test]
fn line_zero_has_no_end() {
    let map = LineMap::new("a\nb");
    assert_eq!(map.line_end(LineNum(0)), usize::MAX);
}

#[test]
fn every_byte_lies_on_its_line() {
    // the line of a byte starts at or before it and ends at or after it
    let text = "ab\n\ncd\nλx\n";
    let map = LineMap::new(text);
    for b in 0..=text.len() {
        let line = map.line_num(b);
        assert!(line.0 >= 1);
        assert!(map.line_start(line) <= b, "byte {b}");
        assert!(b <= map.line_end(line), "byte {b}");
    }
    assert_eq!(map.line_num(3), LineNum(2));
    check_line_text(&map, text, 2, "");
    check_line_text(&map, text, 4, "λx");
    check_line_text(&map, text, 5, "");
}

#[test]
fn carriage_returns_stay_in_the_line() {
    let text = "a\r\nb";
    let map = LineMap::new(text);
    check_line_text(&map, text, 1, "a\r");
    check_line_text(&map, text, 2, "b");
}

#[test]
fn line_numbers_count_the_newlines_before() {
    let text = "a\n\nbc\nd\n";
    let map = LineMap::new(text);
    let mut last = 1;
    for b in 0..=text.len() {
        let newlines = text.as_bytes()[..b].iter().filter(|c| **c == b'\n').count();
        let line = map.line_num(b);
        assert_eq!(line, LineNum(1 + newlines));
        assert!(line.0 >= last);
        last = line.0;
    }
}

#[test]
fn lines_are_the_pieces_between_newlines() {
    for text in ["", "foo\nbar\nbaz\n", "one line only", "\n\nx\n\ny", "αβ\nγ"] {
        let map = LineMap::new(text);
        for (k, piece) in text.split('\n').enumerate() {
            check_line_text(&map, text, k + 1, piece);
        }
    }
}
