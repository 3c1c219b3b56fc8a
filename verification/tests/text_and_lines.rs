use gitlog::lines::LineCursor;
use gitlog::text::{
    append_at, char_is_whitespace, chars_of, count_at, run_end_at, string_at, trim_end_at,
};

fn count(s: &str) -> Option<u64> {
    let text = chars_of(s);
    count_at(&text, 0, text.len())
}

fn lines_of(s: &str) -> Vec<String> {
    let text = chars_of(s);
    let mut cursor = LineCursor::new(&text, 0, text.len());
    let mut lines = Vec::new();
    while let Some((from, to)) = cursor.next_line() {
        lines.push(string_at(&text, from, to));
    }
    assert_eq!(cursor.next_line(), None);
    lines
}

#[test]
fn characters_are_copied_in_order() {
    assert_eq!(chars_of(""), Vec::<char>::new());
    assert_eq!(chars_of("a\nż☕"), vec!['a', '\n', 'ż', '☕']);
}

#[test]
fn whitespace_is_what_the_standard_library_calls_whitespace() {
    for code in 0..=0x10FFFFu32 {
        if let Some(c) = char::from_u32(code) {
            assert_eq!(char_is_whitespace(c), c.is_whitespace(), "U+{:04X}", code);
        }
    }
}

#[test]
fn counts_are_read_as_the_standard_library_reads_them() {
    for s in [
        "", "0", "7", "42", "007", "+7", "+", "-7", "-0", "++7", "+-7", "7+", " 7", "7 ", "7\n",
        "1727789190", "18446744073709551615", "18446744073709551616", "18446744073709551620",
        "28446744073709551615", "000000000000000000000000018446744073709551615",
        "100000000000000000000", "1e3", "0x10", "１２", "1,000", "٤٢", "a", "9a", "a9",
    ] {
        assert_eq!(count(s), s.parse::<u64>().ok(), "{:?}", s);
    }
}

#[test]
fn count_has_its_decimal_value() {
    assert_eq!(count("0"), Some(0));
    assert_eq!(count("1000"), Some(1000));
    assert_eq!(count("+1727789190"), Some(1727789190));
    assert_eq!(count("18446744073709551615"), Some(u64::MAX));
    assert_eq!(count("18446744073709551616"), None);
}

#[test]
fn count_is_read_from_a_part_of_the_text() {
    let text = chars_of("ab123cd");
    assert_eq!(count_at(&text, 2, 5), Some(123));
    assert_eq!(count_at(&text, 3, 4), Some(2));
    assert_eq!(count_at(&text, 1, 5), None);
    assert_eq!(count_at(&text, 2, 6), None);
    assert_eq!(count_at(&text, 2, 2), None);
}

#[test]
fn strings_are_built_from_a_part_of_the_text() {
    let text = chars_of("héllo wörld");
    assert_eq!(string_at(&text, 0, 5), "héllo");
    assert_eq!(string_at(&text, 6, 11), "wörld");
    assert_eq!(string_at(&text, 3, 3), "");
    assert_eq!(string_at(&text, 0, text.len()), "héllo wörld");
    let mut s = String::from("x");
    append_at(&mut s, &text, 4, 7);
    assert_eq!(s, "xo w");
    append_at(&mut s, &text, 7, 7);
    assert_eq!(s, "xo w");
}

#[test]
fn runs_end_where_the_kind_of_character_changes() {
    let text = chars_of("  \tab c\u{a0}");
    assert_eq!(run_end_at(&text, 0, text.len(), true), 3);
    assert_eq!(run_end_at(&text, 0, text.len(), false), 0);
    assert_eq!(run_end_at(&text, 3, text.len(), false), 5);
    assert_eq!(run_end_at(&text, 3, text.len(), true), 3);
    assert_eq!(run_end_at(&text, 3, 4, false), 4);
    assert_eq!(run_end_at(&text, 6, text.len(), false), 7);
    assert_eq!(run_end_at(&text, 7, text.len(), true), 8);
    assert_eq!(run_end_at(&text, 0, 2, true), 2);
    assert_eq!(run_end_at(&text, 8, 8, true), 8);
}

#[test]
fn trailing_whitespace_is_left_out() {
    let text = chars_of(" ab c \t\n");
    assert_eq!(trim_end_at(&text, 0, text.len()), 5);
    assert_eq!(trim_end_at(&text, 0, 5), 5);
    assert_eq!(trim_end_at(&text, 0, 4), 3);
    assert_eq!(trim_end_at(&text, 0, 1), 0);
    assert_eq!(trim_end_at(&text, 5, text.len()), 5);
    assert_eq!(trim_end_at(&text, 2, 2), 2);
}

#[test]
fn lines_are_the_pieces_between_newlines() {
    for s in ["", "a", "\n", "a\n", "\na", "a\nb", "a\n\nb", "\n\n", "a\r\nb", "ż\n☕\n\n x \n"] {
        let expected: Vec<String> = s.split("\n").map(|l| l.to_string()).collect();
        assert_eq!(lines_of(s), expected, "{:?}", s);
    }
}

#[test]
fn lines_of_known_texts() {
    assert_eq!(lines_of(""), vec![""]);
    assert_eq!(lines_of("a\nb"), vec!["a", "b"]);
    assert_eq!(lines_of("a\n"), vec!["a", ""]);
    assert_eq!(lines_of("\n\n"), vec!["", "", ""]);
}

#[test]
fn cursor_walks_a_part_of_the_text() {
    let text = chars_of("ab\ncd\nef");
    let mut cursor = LineCursor::new(&text, 1, 7);
    assert_eq!(cursor.source(), &text);
    assert_eq!(cursor.next_line(), Some((1, 2)));
    assert_eq!(cursor.next_line(), Some((3, 5)));
    assert_eq!(cursor.next_line(), Some((6, 7)));
    assert_eq!(cursor.next_line(), None);
    assert_eq!(cursor.next_line(), None);
    let mut cursor = LineCursor::new(&text, 2, 3);
    assert_eq!(cursor.next_line(), Some((2, 2)));
    assert_eq!(cursor.next_line(), Some((3, 3)));
    assert_eq!(cursor.next_line(), None);
    let mut cursor = LineCursor::new(&text, 4, 4);
    assert_eq!(cursor.next_line(), Some((4, 4)));
    assert_eq!(cursor.next_line(), None);
}
