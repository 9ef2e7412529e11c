use py_doc::models::{PythonClass, PythonFunction, PythonModule, PythonPackage};
use py_doc::resolver::Resolver;

fn module(name: &str, classes: &[&str]) -> PythonModule {
    PythonModule {
        name: name.to_string(),
        filepath: format!("{}.py", name),
        docstring: None,
        classes: classes
            .iter()
            .map(|c| PythonClass { name: c.to_string(), docstring: None, functions: Vec::new() })
            .collect(),
        functions: Vec::new(),
        z_index: i32::MAX,
        folder: None,
        link_path: String::new(),
    }
}

#[test]
fn build_index_links_modules_and_classes() {
    let package = PythonPackage {
        name: "pkg".to_string(),
        modules: vec![module("core", &["Engine", "Part"]), module("util", &[])],
    };
    let mut resolver = Resolver::new();
    resolver.build_index(&package);
    assert_eq!(resolver.resolve_link("core"), Some("pkg.core.html".to_string()));
    assert_eq!(resolver.resolve_link("util"), Some("pkg.util.html".to_string()));
    assert_eq!(resolver.resolve_link("Engine"), Some("pkg.core.html#class.Engine".to_string()));
    assert_eq!(resolver.resolve_link("Part"), Some("pkg.core.html#class.Part".to_string()));
    assert_eq!(resolver.resolve_link("Missing"), None);
}

#[test]
fn later_entries_replace_earlier_ones() {
    let package = PythonPackage {
        name: "pkg".to_string(),
        modules: vec![module("a", &["Shared"]), module("b", &["Shared"])],
    };
    let mut resolver = Resolver::new();
    resolver.build_index(&package);
    assert_eq!(resolver.resolve_link("Shared"), Some("pkg.b.html#class.Shared".to_string()));
}

#[test]
fn new_resolver_is_empty() {
    let resolver = Resolver::new();
    assert_eq!(resolver.resolve_link("anything"), None);
}

fn function(name: &str) -> PythonFunction {
    PythonFunction { name: name.to_string(), args: Vec::new(), return_type: None, docstring: None }
}

#[test]
fn build_index_links_functions_and_methods() {
    let mut core = module("core", &["Engine"]);
    core.classes[0].functions.push(function("run"));
    core.functions.push(function("helper"));
    let package = PythonPackage { name: "pkg".to_string(), modules: vec![core] };
    let mut resolver = Resolver::new();
    resolver.build_index(&package);
    assert_eq!(resolver.resolve_link("helper"), Some("pkg.core.html#fn.helper".to_string()));
    assert_eq!(resolver.resolve_link("run"), Some("pkg.core.html#method.Engine.run".to_string()));
    assert_eq!(resolver.resolve_link("Engine"), Some("pkg.core.html#class.Engine".to_string()));
}

#[test]
fn top_level_function_replaces_method_of_same_name() {
    let mut core = module("core", &["Engine"]);
    core.classes[0].functions.push(function("start"));
    core.functions.push(function("start"));
    let package = PythonPackage { name: "pkg".to_string(), modules: vec![core] };
    let mut resolver = Resolver::new();
    resolver.build_index(&package);
    assert_eq!(resolver.resolve_link("start"), Some("pkg.core.html#fn.start".to_string()));
}

#[test]
fn indexing_twice_is_indexing_once() {
    let mut core = module("core", &["Engine"]);
    core.classes[0].functions.push(function("run"));
    core.functions.push(function("helper"));
    let package = PythonPackage { name: "pkg".to_string(), modules: vec![core, module("util", &["Engine"])] };
    let mut once = Resolver::new();
    once.build_index(&package);
    let mut twice = Resolver::new();
    twice.build_index(&package);
    twice.build_index(&package);
    for name in ["core", "util", "Engine", "run", "helper", "missing"] {
        assert_eq!(once.resolve_link(name), twice.resolve_link(name), "name {:?}", name);
    }
    assert_eq!(twice.resolve_link("Engine"), Some("pkg.util.html#class.Engine".to_string()));
}
