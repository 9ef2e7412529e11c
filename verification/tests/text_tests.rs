use py_doc::text::{chars_of, is_whitespace, parse_i32_range, split_lines, string_of, text_lines};

fn lines_of(s: &str) -> Vec<String> {
    text_lines(s)
}

#[test]
fn string_of_round_trip() {
    assert_eq!(string_of(&['a', 'b']), "ab");
    assert_eq!(string_of(&chars_of("héllo wörld")), "héllo wörld");
}

#[test]
fn text_lines_match_str_lines() {
    for s in ["", "a", "a\n", "a\nb", "a\r\nb\r\n", "foo\nbar\n\r\nbaz\r", "\n", "\n\n", "x\r"] {
        let expected: Vec<String> = s.lines().map(|l| l.to_string()).collect();
        assert_eq!(lines_of(s), expected, "input {:?}", s);
    }
}

#[test]
fn text_lines_keep_a_final_carriage_return() {
    assert_eq!(lines_of("foo\nbar\n\r\nbaz\r"), vec!["foo", "bar", "", "baz\r"]);
}

#[test]
fn split_lines_counts_lines() {
    let v = split_lines(&chars_of("one\ntwo\n"));
    assert_eq!(v.len(), 2);
    assert_eq!(v[1], vec!['t', 'w', 'o']);
}

#[test]
fn whitespace_matches_char_is_whitespace() {
    for u in 0u32..0x3100 {
        if let Some(c) = char::from_u32(u) {
            assert_eq!(is_whitespace(c), c.is_whitespace(), "char {:#x}", u);
        }
    }
}

#[test]
fn parse_i32_matches_str_parse() {
    for s in [
        "0", "42", "-42", "+7", "-", "+", "", "007", "-0", "2147483647", "2147483648",
        "-2147483648", "-2147483649", "12a", " 1", "1 ", "99999999999999999999", "--1",
    ] {
        let c = chars_of(s);
        assert_eq!(parse_i32_range(&c, 0, c.len()), s.parse::<i32>().ok(), "input {:?}", s);
    }
}
