use py_doc::extract::{
    build_module, expr_to_string, extract_class, extract_function, ModuleError, PyClassDef, PyExpr,
    PyFunctionDef, PyParameter, PyStmt,
};

fn name(s: &str) -> PyExpr {
    PyExpr::Name(s.to_string())
}

fn doc(s: &str) -> PyStmt {
    PyStmt::Expr(PyExpr::StringLiteral(s.to_string()))
}

fn func(n: &str, params: Vec<PyParameter>, returns: Option<PyExpr>, body: Vec<PyStmt>) -> PyFunctionDef {
    PyFunctionDef { name: n.to_string(), parameters: params, returns, body }
}

fn param(n: &str, annotation: Option<PyExpr>) -> PyParameter {
    PyParameter { name: n.to_string(), annotation }
}

#[test]
fn annotations_are_rendered() {
    let e = PyExpr::Subscript(Box::new(name("dict")), Box::new(PyExpr::Subscript(Box::new(name("list")), Box::new(PyExpr::NoneLiteral))));
    assert_eq!(expr_to_string(&e), "dict[list[None]]");
    assert_eq!(expr_to_string(&PyExpr::StringLiteral("Foo".to_string())), "Foo");
    assert_eq!(expr_to_string(&PyExpr::Other), "Any");
}

#[test]
fn functions_are_documented() {
    let f = func(
        "area",
        vec![param("w", Some(name("int"))), param("h", None)],
        Some(name("float")),
        vec![doc("Compute the area."), PyStmt::Other],
    );
    let d = extract_function(&f);
    assert_eq!(d.name, "area");
    assert_eq!(d.args, vec!["w: int".to_string(), "h".to_string()]);
    assert_eq!(d.return_type, Some("float".to_string()));
    assert_eq!(d.docstring, Some("Compute the area.".to_string()));
}

#[test]
fn a_docstring_must_come_first_in_a_function() {
    let f = func("f", vec![], None, vec![PyStmt::Other, doc("late")]);
    assert_eq!(extract_function(&f).docstring, None);
}

#[test]
fn class_docstring_is_the_first_string_statement() {
    let c = PyClassDef {
        name: "Shape".to_string(),
        body: vec![
            PyStmt::Other,
            PyStmt::Expr(name("x")),
            doc("A shape."),
            doc("Not this."),
            PyStmt::FunctionDef(func("m", vec![param("self", None)], None, vec![])),
        ],
    };
    let d = extract_class(&c);
    assert_eq!(d.name, "Shape");
    assert_eq!(d.docstring, Some("A shape.".to_string()));
    assert_eq!(d.functions.len(), 1);
    assert_eq!(d.functions[0].args, vec!["self".to_string()]);
}

#[test]
fn modules_collect_top_level_definitions() {
    let body = vec![
        doc("Module doc."),
        PyStmt::ClassDef(PyClassDef { name: "A".to_string(), body: vec![] }),
        PyStmt::FunctionDef(func("g", vec![], None, vec![])),
        PyStmt::Other,
        PyStmt::ClassDef(PyClassDef { name: "B".to_string(), body: vec![] }),
    ];
    let m = match build_module("src/03_tools/helpers.py", "src", &body) {
        Ok(m) => m,
        Err(_) => panic!("expected a module"),
    };
    assert_eq!(m.name, "helpers");
    assert_eq!(m.filepath, "src/03_tools/helpers.py");
    assert_eq!(m.docstring, Some("Module doc.".to_string()));
    assert_eq!(m.classes.iter().map(|c| c.name.clone()).collect::<Vec<_>>(), vec!["A", "B"]);
    assert_eq!(m.functions.len(), 1);
    assert_eq!(m.z_index, i32::MAX);
    assert_eq!(m.folder, Some("tools".to_string()));
    assert_eq!(m.link_path, "");
}

#[test]
fn a_path_without_file_name_is_refused() {
    assert!(matches!(build_module("..", ".", &vec![]), Err(ModuleError::InvalidFileName)));
}
