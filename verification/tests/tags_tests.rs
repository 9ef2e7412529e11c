use py_doc::tags::striptags;

fn strip(s: &str) -> String {
    match striptags(s) {
        Ok(t) => t,
        Err(_) => panic!("the tag expression compiles"),
    }
}

#[test]
fn tags_are_removed() {
    assert_eq!(strip("<p>Hello <b>world</b></p>"), "Hello world");
}

#[test]
fn an_unclosed_tag_is_kept() {
    assert_eq!(strip("a < b and c"), "a < b and c");
    assert_eq!(strip("x <y"), "x <y");
}

#[test]
fn a_tag_may_span_lines() {
    assert_eq!(strip("a<div\nclass=\"x\">b"), "ab");
}

#[test]
fn nested_brackets_end_at_the_first_close() {
    assert_eq!(strip("<<a>b>c"), "b>c");
}

#[test]
fn stripping_twice_changes_nothing() {
    let once = strip("<i>x</i> < y > z");
    assert_eq!(once, "x  z");
    assert_eq!(strip(&once), once);
}

#[test]
fn striptags_always_succeeds() {
    assert!(striptags("<p>Hello <b>World</b></p>").is_ok());
    assert_eq!(strip("<p>Hello <b>World</b></p>"), "Hello World");
    assert_eq!(py_doc::tags::striptags_text("<i>a</i>\n<br/>b"), "a\nb");
}
