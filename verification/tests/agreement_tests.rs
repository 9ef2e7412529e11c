//! The library's text functions agree with the same computations written
//! directly with `std` and `regex`.
use std::path::Path;

use py_doc::docstring::{clean_docstring, docstring_dedent_defined, extract_z_index_and_clean};
use py_doc::markup::DocMacro;
use py_doc::paths::{folder_of, folder_z_index_of};
use py_doc::tags::striptags;

fn std_clean(docstring: &str) -> String {
    let lines: Vec<&str> = docstring.lines().collect();
    if lines.is_empty() {
        return String::new();
    }
    let mut min_indent = usize::MAX;
    for line in lines.iter().skip(1) {
        if line.trim().is_empty() {
            continue;
        }
        let indent = line.len() - line.trim_start().len();
        if indent < min_indent {
            min_indent = indent;
        }
    }
    let min_indent = if min_indent == usize::MAX { 0 } else { min_indent };
    let mut cleaned = String::new();
    for (i, line) in lines.iter().enumerate() {
        if i == 0 {
            cleaned.push_str(line);
        } else if line.trim().is_empty() {
        } else if line.len() >= min_indent {
            cleaned.push_str(&line[min_indent..]);
        } else {
            cleaned.push_str(line.trim_start());
        }
        cleaned.push('\n');
    }
    cleaned
}

fn std_z(docstring: &str) -> (i32, String) {
    let mut z_index = i32::MAX;
    let mut kept = Vec::new();
    for line in docstring.lines() {
        let trimmed = line.trim();
        if trimmed.starts_with("#pd-z-index:") {
            if let Ok(v) = trimmed.trim_start_matches("#pd-z-index:").trim().parse::<i32>() {
                z_index = v;
            }
            continue;
        }
        kept.push(line);
    }
    (z_index, kept.join("\n"))
}

fn std_macro(line: &str) -> String {
    let t = line.trim();
    if t.starts_with("#pd-image:") {
        format!("image:{}", t.trim_start_matches("#pd-image:").trim())
    } else if t.starts_with("#pd-note:") {
        format!("note:{}", t.trim_start_matches("#pd-note:").trim())
    } else if t.starts_with("#pd-warning:") {
        format!("warning:{}", t.trim_start_matches("#pd-warning:").trim())
    } else if t.starts_with("#pd-doc-link:") {
        format!("link:{}", t.trim_start_matches("#pd-doc-link:").trim())
    } else if t.starts_with("#pd-code") {
        format!("code:{}", t.trim_start_matches("#pd-code").trim().trim_matches('`'))
    } else {
        "none".to_string()
    }
}

fn lib_macro(line: &str) -> String {
    match DocMacro::parse(line) {
        None => "none".to_string(),
        Some(DocMacro::Image { path }) => format!("image:{}", path),
        Some(DocMacro::Note { text }) => format!("note:{}", text),
        Some(DocMacro::Warning { text }) => format!("warning:{}", text),
        Some(DocMacro::DocLink { target }) => format!("link:{}", target),
        Some(DocMacro::CodeBlockStart { language }) => format!("code:{}", language),
    }
}

fn std_folder(filepath: &str, root: &str) -> Option<String> {
    let filepath = Path::new(filepath);
    if let Ok(relative_path) = filepath.strip_prefix(Path::new(root)) {
        relative_path.parent().and_then(|p| {
            if p.to_string_lossy().is_empty() {
                None
            } else {
                let folder_name = p.file_name()?.to_string_lossy().to_string();
                if let Some(under_idx) = folder_name.find('_') {
                    let prefix = &folder_name[..under_idx];
                    if prefix.chars().all(|c| c.is_ascii_digit()) {
                        Some(folder_name[under_idx + 1..].to_string())
                    } else {
                        Some(folder_name)
                    }
                } else {
                    Some(folder_name)
                }
            }
        })
    } else {
        None
    }
}

fn std_folder_z(filepath: &str) -> i32 {
    let mut z_val = i32::MAX;
    if let Some(parent) = Path::new(filepath).parent() {
        if let Some(name) = parent.file_name().map(|f| f.to_string_lossy()) {
            if let Some(under_idx) = name.find('_') {
                if let Ok(z) = name[..under_idx].parse::<i32>() {
                    z_val = z;
                }
            }
        }
    }
    z_val
}

const DOCSTRINGS: [&str; 14] = [
    "",
    "one",
    "Title\n    body\n      more\n    ",
    "  a\n\tb\n\t\tc",
    "x\r\n    y\r\n    z\r",
    "x\n\n\n    y",
    "head\n\u{3000}a\n   b",
    "head\n\u{a0}\u{a0}a\n    b",
    "T\n  #pd-z-index: 4\n  body",
    "#pd-z-index: 1\n#pd-z-index:2\n#pd-z-index: nope",
    "#pd-z-index:#pd-z-index: -17",
    "trailing\n",
    "   \n   \n",
    "a\n  b\n c\n   d",
];

#[test]
fn cleaning_agrees() {
    for doc in DOCSTRINGS {
        if docstring_dedent_defined(doc) {
            assert_eq!(clean_docstring(doc), std_clean(doc), "docstring {:?}", doc);
        }
    }
}

#[test]
fn z_index_extraction_agrees() {
    for doc in DOCSTRINGS {
        assert_eq!(extract_z_index_and_clean(doc), std_z(doc), "docstring {:?}", doc);
    }
}

#[test]
fn directive_parsing_agrees() {
    for line in [
        "#pd-image: a.png",
        "  #pd-note:   hello  ",
        "#pd-warning:",
        "#pd-doc-link: m.f.g",
        "#pd-code",
        "#pd-code```rust``` ",
        "#pd-codex",
        "#pd-image:#pd-image:#pd-image: x",
        "text #pd-note: no",
        "\u{2003}#pd-note:\u{2003}wide\u{2003}",
    ] {
        assert_eq!(lib_macro(line), std_macro(line), "line {:?}", line);
    }
}

#[test]
fn tag_stripping_agrees() {
    let re = regex::Regex::new(r"<[^>]*>").unwrap();
    for s in ["", "<a>", "a<b>c<d", "<<>>", "x > y < z", "<p\n>t</p>", "<é>ü<>", "><"] {
        let ours = match striptags(s) {
            Ok(t) => t,
            Err(_) => panic!("the tag expression compiles"),
        };
        assert_eq!(ours, re.replace_all(s, "").into_owned(), "text {:?}", s);
    }
}

#[test]
fn folders_agree() {
    for (p, root) in [
        ("src/01_a/x.py", "src"),
        ("src/x.py", "src"),
        ("./src/b_c/x.py", "./src"),
        ("src/./d/x.py", "src"),
        ("/abs/src/9_z/x.py", "/abs/src"),
        ("src/../q/x.py", "src"),
        ("src/a/../x.py", "src"),
        ("x.py", ""),
        ("a/b.py", ""),
        ("src", "src"),
    ] {
        assert_eq!(folder_of(p, root), std_folder(p, root), "path {:?} under {:?}", p, root);
        assert_eq!(folder_z_index_of(p), std_folder_z(p), "path {:?}", p);
    }
}
