use py_doc::docstring::{clean_docstring, docstring_dedent_defined, extract_z_index_and_clean};

#[test]
fn clean_docstring_removes_common_indentation() {
    let doc = "Summary.\n\n    Details here.\n      Indented.\n    ";
    assert_eq!(clean_docstring(doc), "Summary.\n\nDetails here.\n  Indented.\n\n");
}

#[test]
fn clean_docstring_keeps_the_first_line() {
    assert_eq!(clean_docstring("   first\n   second"), "   first\nsecond\n");
}

#[test]
fn clean_docstring_of_empty_text_is_empty() {
    assert_eq!(clean_docstring(""), "");
}

#[test]
fn clean_docstring_without_later_lines_appends_newline() {
    assert_eq!(clean_docstring("only line"), "only line\n");
}

#[test]
fn clean_docstring_counts_indentation_in_bytes() {
    // U+3000 is whitespace three bytes long; three spaces make the same width.
    let doc = "head\n\u{3000}a\n   b";
    assert!(docstring_dedent_defined(doc));
    assert_eq!(clean_docstring(doc), "head\na\nb\n");
}

#[test]
fn dedent_is_undefined_when_the_cut_splits_a_character() {
    // The least indentation is one byte, which falls inside U+3000.
    let doc = "head\n\u{3000}a\n b";
    assert!(!docstring_dedent_defined(doc));
}

#[test]
fn extract_z_index_reads_the_directive() {
    let (z, text) = extract_z_index_and_clean("Title\n  #pd-z-index: 3  \nBody");
    assert_eq!(z, 3);
    assert_eq!(text, "Title\nBody");
}

#[test]
fn extract_z_index_last_valid_directive_wins() {
    let (z, text) = extract_z_index_and_clean("#pd-z-index: 5\n#pd-z-index: -2\n#pd-z-index: x\nrest");
    assert_eq!(z, -2);
    assert_eq!(text, "rest");
}

#[test]
fn extract_z_index_without_directive() {
    let (z, text) = extract_z_index_and_clean("a\nb\n");
    assert_eq!(z, i32::MAX);
    assert_eq!(text, "a\nb");
}

#[test]
fn extract_z_index_invalid_number_still_removes_the_line() {
    let (z, text) = extract_z_index_and_clean("x\n#pd-z-index: 99999999999\ny");
    assert_eq!(z, i32::MAX);
    assert_eq!(text, "x\ny");
}

#[test]
fn extract_z_index_strips_repeated_markers() {
    let (z, _) = extract_z_index_and_clean("#pd-z-index:#pd-z-index: +4");
    assert_eq!(z, 4);
}

#[test]
fn cleaning_twice_is_cleaning_once() {
    for doc in [
        "Summary.\n\n    Details here.\n      Indented.\n    ",
        "   first\n   second",
        "One line",
        "",
        "Title\n\t\tTabbed\n\t\t  more\n\n\t\tend\n",
        "Head\n      deep\n  shallow\n",
    ] {
        let once = clean_docstring(doc);
        assert!(docstring_dedent_defined(&once));
        assert_eq!(clean_docstring(&once), once, "docstring {:?}", doc);
    }
}
