use py_doc::models::{PythonClass, PythonModule};
use py_doc::navigation::{
    build_nav_groups, doc_only_module_names, module_is_doc_only, sort_modules, template_for,
};

fn module(name: &str, filepath: &str, z: i32, folder: Option<&str>) -> PythonModule {
    PythonModule {
        name: name.to_string(),
        filepath: filepath.to_string(),
        docstring: None,
        classes: Vec::new(),
        functions: Vec::new(),
        z_index: z,
        folder: folder.map(|f| f.to_string()),
        link_path: String::new(),
    }
}

fn names(ms: &[PythonModule]) -> Vec<String> {
    ms.iter().map(|m| m.name.clone()).collect()
}

#[test]
fn modules_sort_by_z_index_then_name() {
    let ms = vec![
        module("b", "b.py", 2, None),
        module("a", "a.py", i32::MAX, None),
        module("c", "c.py", 1, None),
        module("a", "a2.py", 2, None),
        module("Z", "z.py", 2, None),
    ];
    let sorted = sort_modules(ms);
    assert_eq!(names(&sorted), vec!["c", "Z", "a", "b", "a"]);
    assert_eq!(sorted[2].filepath, "a2.py");
}

#[test]
fn sorting_is_stable_for_equal_keys() {
    let ms = vec![module("m", "first.py", 0, None), module("m", "second.py", 0, None)];
    let sorted = sort_modules(ms);
    assert_eq!(sorted[0].filepath, "first.py");
    assert_eq!(sorted[1].filepath, "second.py");
}

#[test]
fn z_index_directive_is_applied() {
    let mut m = module("m", "m.py", i32::MAX, None);
    m.docstring = Some("Doc\n#pd-z-index: 7\nMore".to_string());
    m.apply_z_index();
    assert_eq!(m.z_index, 7);
    assert_eq!(m.docstring, Some("Doc\nMore".to_string()));

    let mut bare = module("n", "n.py", 5, None);
    bare.apply_z_index();
    assert_eq!(bare.z_index, i32::MAX);
    assert_eq!(bare.docstring, None);
}

#[test]
fn prose_pages_are_recognised() {
    let mut prose = module("guide", "guide.py", 0, None);
    prose.docstring = Some("  #pd-write\ntext".to_string());
    let mut code = module("api", "api.py", 0, None);
    code.docstring = Some("#pd-write".to_string());
    code.classes.push(PythonClass { name: "A".to_string(), docstring: None, functions: Vec::new() });
    assert!(module_is_doc_only(&prose));
    assert!(!module_is_doc_only(&code));
    let names = doc_only_module_names(&vec![code, prose]);
    assert_eq!(names, vec!["guide".to_string()]);
    assert_eq!(template_for("guide", &names), "document.html");
    assert_eq!(template_for("api", &names), "module.html");
}

#[test]
fn groups_follow_folders_and_their_order() {
    let ms = sort_modules(vec![
        module("intro", "src/intro.py", 5, None),
        module("setup", "src/02_guide/setup.py", 1, Some("guide")),
        module("basics", "src/02_guide/basics.py", 0, Some("guide")),
        module("api", "src/01_reference/api.py", 3, Some("reference")),
        module("misc", "src/extras/misc.py", 0, Some("extras")),
    ]);
    let groups = build_nav_groups(ms);
    let summary: Vec<(Option<String>, Vec<String>)> =
        groups.iter().map(|g| (g.name.clone(), names(&g.modules))).collect();
    assert_eq!(
        summary,
        vec![
            (Some("reference".to_string()), vec!["api".to_string()]),
            (Some("guide".to_string()), vec!["basics".to_string(), "setup".to_string()]),
            (None, vec!["intro".to_string()]),
            (Some("extras".to_string()), vec!["misc".to_string()]),
        ]
    );
}

#[test]
fn groups_with_equal_order_go_by_name() {
    let ms = sort_modules(vec![
        module("x", "src/b/x.py", 0, Some("b")),
        module("y", "src/a/y.py", 0, Some("a")),
        module("r", "src/r.py", i32::MAX, None),
    ]);
    let groups = build_nav_groups(ms);
    let order: Vec<Option<String>> = groups.iter().map(|g| g.name.clone()).collect();
    assert_eq!(order, vec![None, Some("a".to_string()), Some("b".to_string())]);
}
