use py_doc::paths::{classify_source, file_name_of, folder_of, folder_z_index_of, module_name_of, SourceKind};
use std::path::Path;

fn std_stem(p: &str) -> Option<String> {
    Path::new(p).file_stem().map(|s| s.to_string_lossy().to_string())
}

#[test]
fn module_names_match_file_stem() {
    for p in ["src/pkg/mod.py", "a.tar.gz", ".hidden", "dir/", "..", "x/..", "/", "", "./a.py", "a.", "noext"] {
        assert_eq!(module_name_of(p), std_stem(p), "path {:?}", p);
    }
}

#[test]
fn folder_strips_numeric_prefix() {
    assert_eq!(folder_of("src/01_getting started/intro.py", "src"), Some("getting started".to_string()));
    assert_eq!(folder_of("src/guide_v2/intro.py", "src"), Some("guide_v2".to_string()));
    assert_eq!(folder_of("src/_x/intro.py", "src"), Some("x".to_string()));
    assert_eq!(folder_of("src/a/b/intro.py", "src"), Some("b".to_string()));
}

#[test]
fn files_in_the_root_have_no_folder() {
    assert_eq!(folder_of("src/intro.py", "src"), None);
    assert_eq!(folder_of("./src/intro.py", "./src"), None);
    assert_eq!(folder_of("src//x/intro.py", "src/"), Some("x".to_string()));
    assert_eq!(folder_of("other/x/intro.py", "src"), None);
}

#[test]
fn folder_order_comes_from_the_directory_name() {
    assert_eq!(folder_z_index_of("src/03_api/mod.py"), 3);
    assert_eq!(folder_z_index_of("src/-1_first/mod.py"), -1);
    assert_eq!(folder_z_index_of("src/api/mod.py"), i32::MAX);
    assert_eq!(folder_z_index_of("src/x1_api/mod.py"), i32::MAX);
    assert_eq!(folder_z_index_of("mod.py"), i32::MAX);
}

#[test]
fn python_sources_are_classified() {
    assert_eq!(classify_source("src/pkg/core.py"), SourceKind::Module);
    assert_eq!(classify_source("core.py"), SourceKind::Module);
    assert_eq!(classify_source("src/pkg/__main__.py"), SourceKind::EntryPoint);
    assert_eq!(classify_source("src/.venv/lib/site.py"), SourceKind::Ignored);
    assert_eq!(classify_source("src/pkg/__pycache__/core.py"), SourceKind::Ignored);
    assert_eq!(classify_source("src/pkg/readme.md"), SourceKind::NotPython);
    assert_eq!(classify_source("src/pkg/core.pyc"), SourceKind::NotPython);
    assert_eq!(classify_source("src/pkg/.py"), SourceKind::NotPython);
    assert_eq!(classify_source("src/pkg"), SourceKind::NotPython);
    assert_eq!(classify_source("src/pkg/a.b.py"), SourceKind::Module);
    assert_eq!(classify_source("src/.venv"), SourceKind::NotPython);
}

#[test]
fn extensions_agree_with_std() {
    for p in ["a.py", "a.tar.py", ".py", "..py", "a.", "dir/", "..", "x.PY", "py", "/a/b.py/", "./c.py"] {
        let std_is_py = Path::new(p).extension().map_or(false, |e| e == "py");
        let std_main = Path::new(p).file_name().map_or(false, |n| n == "__main__.py");
        let ours = classify_source(p);
        assert_eq!(ours != SourceKind::NotPython, std_is_py, "path {:?}", p);
        if std_is_py && !std_main {
            assert_eq!(ours, SourceKind::Module, "path {:?}", p);
        }
    }
}

#[test]
fn file_names_agree_with_std() {
    for p in ["img/logo.png", "logo.png", "a/b/", "..", "x/..", "/", "", "./c.gif", "/abs/d.svg", "a/."] {
        let std_name = Path::new(p).file_name().map(|n| n.to_string_lossy().to_string());
        assert_eq!(file_name_of(p), std_name, "path {:?}", p);
    }
}
