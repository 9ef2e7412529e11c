//! The parts of a Python syntax tree that the documentation reads, and the
//! extraction of a module's documentation from them.
use vstd::prelude::*;

use crate::models::{
    ClassView, FunctionView, ModuleView, PythonClass, PythonFunction, PythonModule, opt_view,
};
use crate::paths::{file_stem, folder_of, module_folder, module_name_of};

verus! {

// ---------------------------------------------------------------------------
// The syntax tree
// ---------------------------------------------------------------------------

/// An expression, as far as type annotations and docstrings need it.
pub enum PyExpr {
    /// A name, such as `int`.
    Name(String),
    /// `value[slice]`, such as `list[int]`.
    Subscript(Box<PyExpr>, Box<PyExpr>),
    /// `None`.
    NoneLiteral,
    /// A string literal, with its escapes resolved and its parts joined.
    StringLiteral(String),
    /// Any other expression.
    Other,
}

/// A positional-or-keyword parameter of a function.
pub struct PyParameter {
    pub name: String,
    pub annotation: Option<PyExpr>,
}

/// A `def` statement.
pub struct PyFunctionDef {
    pub name: String,
    /// The positional-or-keyword parameters, in order.
    pub parameters: Vec<PyParameter>,
    pub returns: Option<PyExpr>,
    pub body: Vec<PyStmt>,
}

/// A `class` statement.
pub struct PyClassDef {
    pub name: String,
    pub body: Vec<PyStmt>,
}

/// A statement.
pub enum PyStmt {
    FunctionDef(PyFunctionDef),
    ClassDef(PyClassDef),
    /// An expression used as a statement.
    Expr(PyExpr),
    /// Any other statement.
    Other,
}

// ---------------------------------------------------------------------------
// What the documentation reads from it
// ---------------------------------------------------------------------------

/// How an annotation is shown: names as written, subscripts as `value[slice]`,
/// `None`, string literals by their text, anything else as `Any`.
pub open spec fn expr_text(e: PyExpr) -> Seq<char>
    decreases e,
{
    match e {
        PyExpr::Name(id) => id@,
        PyExpr::Subscript(value, slice) => expr_text(*value) + "["@ + expr_text(*slice) + "]"@,
        PyExpr::NoneLiteral => "None"@,
        PyExpr::StringLiteral(s) => s@,
        PyExpr::Other => "Any"@,
    }
}

/// The docstring a statement gives when it comes first: a string literal
/// used as a statement.
pub open spec fn stmt_docstring(s: PyStmt) -> Option<Seq<char>> {
    match s {
        PyStmt::Expr(PyExpr::StringLiteral(text)) => Some(text@),
        _ => None,
    }
}

/// The docstring of a body: its first statement, when that is a string literal.
pub open spec fn body_docstring(body: Seq<PyStmt>) -> Option<Seq<char>> {
    if body.len() > 0 {
        stmt_docstring(body[0])
    } else {
        None
    }
}

/// How a parameter is shown: `name`, or `name: annotation`.
pub open spec fn parameter_text(p: PyParameter) -> Seq<char> {
    match p.annotation {
        Some(a) => p.name@ + ": "@ + expr_text(a),
        None => p.name@,
    }
}

/// The documentation of a function.
pub open spec fn function_view(f: PyFunctionDef) -> FunctionView {
    FunctionView {
        name: f.name@,
        args: f.parameters@.map_values(|p: PyParameter| parameter_text(p)),
        return_type: match f.returns {
            Some(r) => Some(expr_text(r)),
            None => None,
        },
        docstring: body_docstring(f.body@),
    }
}

/// The functions defined among `body[0..n]`, documented, in order.
pub open spec fn functions_in(body: Seq<PyStmt>, n: int) -> Seq<FunctionView>
    decreases n,
{
    if n <= 0 {
        Seq::empty()
    } else {
        match body[n - 1] {
            PyStmt::FunctionDef(f) => functions_in(body, n - 1).push(function_view(f)),
            _ => functions_in(body, n - 1),
        }
    }
}

/// The first string literal used as a statement among `body[0..n]`, wherever it
/// stands.
pub open spec fn first_string_stmt(body: Seq<PyStmt>, n: int) -> Option<Seq<char>>
    decreases n,
{
    if n <= 0 {
        None
    } else {
        match first_string_stmt(body, n - 1) {
            Some(d) => Some(d),
            None => stmt_docstring(body[n - 1]),
        }
    }
}

/// The documentation of a class: its methods, and as its docstring the first
/// string literal used as a statement in its body.
pub open spec fn class_view(c: PyClassDef) -> ClassView {
    ClassView {
        name: c.name@,
        docstring: first_string_stmt(c.body@, c.body@.len() as int),
        functions: functions_in(c.body@, c.body@.len() as int),
    }
}

/// The classes defined among `body[0..n]`, documented, in order.
pub open spec fn classes_in(body: Seq<PyStmt>, n: int) -> Seq<ClassView>
    decreases n,
{
    if n <= 0 {
        Seq::empty()
    } else {
        match body[n - 1] {
            PyStmt::ClassDef(c) => classes_in(body, n - 1).push(class_view(c)),
            _ => classes_in(body, n - 1),
        }
    }
}

/// The documentation of a module before its docstrings are rendered.
pub open spec fn module_view(
    name: Seq<char>,
    filepath: Seq<char>,
    root: Seq<char>,
    body: Seq<PyStmt>,
) -> ModuleView {
    ModuleView {
        name: name,
        filepath: filepath,
        docstring: body_docstring(body),
        classes: classes_in(body, body.len() as int),
        functions: functions_in(body, body.len() as int),
        z_index: i32::MAX,
        folder: module_folder(filepath, root),
        link_path: Seq::empty(),
    }
}

// ---------------------------------------------------------------------------
// Extraction
// ---------------------------------------------------------------------------

/// How an annotation is shown.
pub fn expr_to_string(expr: &PyExpr) -> (r: String)
    ensures
        r@ == expr_text(*expr),
    decreases expr,
{
    match expr {
        PyExpr::Name(id) => id.clone(),
        PyExpr::Subscript(value, slice) => {
            let mut r = expr_to_string(value);
            let s = expr_to_string(slice);
            r.push_str("[");
            r.push_str(s.as_str());
            r.push_str("]");
            r
        },
        PyExpr::NoneLiteral => "None".to_string(),
        PyExpr::StringLiteral(s) => s.clone(),
        PyExpr::Other => "Any".to_string(),
    }
}

fn docstring_of(body: &Vec<PyStmt>) -> (r: Option<String>)
    ensures
        opt_view(r) == body_docstring(body@),
{
    if body.len() == 0 {
        return None;
    }
    match &body[0] {
        PyStmt::Expr(PyExpr::StringLiteral(text)) => Some(text.clone()),
        _ => None,
    }
}

/// The documentation of a function: its name, its parameters as `name` or
/// `name: annotation`, its return annotation, and its docstring.
pub fn extract_function(func: &PyFunctionDef) -> (r: PythonFunction)
    ensures
        r@ == function_view(*func),
{
    let mut args: Vec<String> = Vec::new();
    let n = func.parameters.len();
    let mut i: usize = 0;
    while i < n
        invariant
            i <= n,
            n == func.parameters@.len(),
            args@.map_values(|a: String| a@) == func.parameters@.take(i as int).map_values(
                |p: PyParameter| parameter_text(p),
            ),
        decreases n - i,
    {
        let param = &func.parameters[i];
        let mut text = param.name.clone();
        match &param.annotation {
            Some(annotation) => {
                text.push_str(": ");
                let a = expr_to_string(annotation);
                text.push_str(a.as_str());
            },
            None => {},
        }
        let ghost before = args@;
        args.push(text);
        assert(args@.map_values(|a: String| a@) =~= before.map_values(|a: String| a@).push(
            text@,
        ));
        assert(func.parameters@.take(i + 1) =~= func.parameters@.take(i as int).push(*param));
        assert(func.parameters@.take(i + 1).map_values(|p: PyParameter| parameter_text(p))
            =~= func.parameters@.take(i as int).map_values(|p: PyParameter| parameter_text(p)).push(
            parameter_text(*param),
        ));
        i += 1;
    }
    assert(func.parameters@.take(n as int) =~= func.parameters@);
    let return_type = match &func.returns {
        Some(r) => Some(expr_to_string(r)),
        None => None,
    };
    let r = PythonFunction {
        name: func.name.clone(),
        args,
        return_type,
        docstring: docstring_of(&func.body),
    };
    assert(r@.args =~= function_view(*func).args);
    r
}

/// The documentation of a class: its name, its docstring (the first string
/// literal used as a statement in its body), and its methods.
pub fn extract_class(class_def: &PyClassDef) -> (r: PythonClass)
    ensures
        r@ == class_view(*class_def),
{
    let mut functions: Vec<PythonFunction> = Vec::new();
    let mut docstring: Option<String> = None;
    let body = &class_def.body;
    let n = body.len();
    let mut i: usize = 0;
    while i < n
        invariant
            i <= n,
            n == body@.len(),
            opt_view(docstring) == first_string_stmt(body@, i as int),
            functions@.map_values(|f: PythonFunction| f@) == functions_in(body@, i as int),
        decreases n - i,
    {
        let ghost before = functions@;
        match &body[i] {
            PyStmt::Expr(expr) => {
                if docstring.is_none() {
                    match expr {
                        PyExpr::StringLiteral(text) => {
                            docstring = Some(text.clone());
                        },
                        _ => {},
                    }
                }
            },
            PyStmt::FunctionDef(func) => {
                let f = extract_function(func);
                functions.push(f);
                assert(functions@.map_values(|f: PythonFunction| f@) =~= before.map_values(
                    |f: PythonFunction| f@,
                ).push(f@));
            },
            _ => {},
        }
        i += 1;
    }
    PythonClass { name: class_def.name.clone(), docstring, functions }
}

/// Why a module could not be documented.
pub enum ModuleError {
    /// The path has no file name to take the module name from.
    InvalidFileName,
}

/// The documentation of the module at `filepath` (found below `root_dir`), whose
/// source parsed to `body`: named after the file's stem, with the module
/// docstring, the top-level classes and functions in order, and the folder the
/// file sits in. Fails when the path has no file name.
pub fn build_module(filepath: &str, root_dir: &str, body: &Vec<PyStmt>) -> (r: Result<
    PythonModule,
    ModuleError,
>)
    ensures
        r is Err <==> file_stem(filepath@) is None,
        r matches Ok(m) ==> m@ == module_view(file_stem(filepath@)->0, filepath@, root_dir@, body@),
{
    let folder = folder_of(filepath, root_dir);
    let name = match module_name_of(filepath) {
        Some(n) => n,
        None => {
            return Err(ModuleError::InvalidFileName);
        },
    };
    let mut classes: Vec<PythonClass> = Vec::new();
    let mut functions: Vec<PythonFunction> = Vec::new();
    let n = body.len();
    let mut i: usize = 0;
    while i < n
        invariant
            i <= n,
            n == body@.len(),
            functions@.map_values(|f: PythonFunction| f@) == functions_in(body@, i as int),
            classes@.map_values(|c: PythonClass| c@) == classes_in(body@, i as int),
        decreases n - i,
    {
        let ghost fb = functions@;
        let ghost cb = classes@;
        match &body[i] {
            PyStmt::FunctionDef(func) => {
                let f = extract_function(func);
                functions.push(f);
                assert(functions@.map_values(|f: PythonFunction| f@) =~= fb.map_values(
                    |f: PythonFunction| f@,
                ).push(f@));
            },
            PyStmt::ClassDef(class_def) => {
                let c = extract_class(class_def);
                classes.push(c);
                assert(classes@.map_values(|c: PythonClass| c@) =~= cb.map_values(
                    |c: PythonClass| c@,
                ).push(c@));
            },
            _ => {},
        }
        i += 1;
    }
    let m = PythonModule {
        name,
        filepath: filepath.to_string(),
        docstring: docstring_of(body),
        classes,
        functions,
        z_index: i32::MAX,
        folder,
        link_path: String::new(),
    };
    proof {
        assert(m.filepath@ == filepath@) by {
            broadcast use vstd::string::to_string_from_display_ensures_for_str;
        }
        assert(m@ =~= module_view(file_stem(filepath@)->0, filepath@, root_dir@, body@));
    }
    Ok(m)
}

// ---------------------------------------------------------------------------
// Laws
// ---------------------------------------------------------------------------

/// A `def` statement.
pub open spec fn is_def() -> spec_fn(PyStmt) -> bool {
    |s: PyStmt| s is FunctionDef
}

proof fn lemma_functions_in_defs(body: Seq<PyStmt>, n: int)
    requires
        0 <= n <= body.len(),
    ensures
        functions_in(body, n).len() == body.take(n).filter(is_def()).len(),
        forall|i: int|
            0 <= i < n && (#[trigger] body[i]) is FunctionDef ==> {
                let k = body.take(i).filter(is_def()).len() as int;
                &&& k < functions_in(body, n).len()
                &&& functions_in(body, n)[k] == function_view(body[i]->FunctionDef_0)
            },
    decreases n,
{
    reveal(Seq::filter);
    if n == 0 {
        assert(body.take(0) =~= Seq::<PyStmt>::empty());
    } else {
        lemma_functions_in_defs(body, n - 1);
        assert(body.take(n).drop_last() =~= body.take(n - 1));
        assert(body.take(n).last() == body[n - 1]);
        let prev = functions_in(body, n - 1);
        assert forall|i: int|
            0 <= i < n && (#[trigger] body[i]) is FunctionDef implies {
                let k = body.take(i).filter(is_def()).len() as int;
                &&& k < functions_in(body, n).len()
                &&& functions_in(body, n)[k] == function_view(body[i]->FunctionDef_0)
            } by {
            if i < n - 1 {
                let k = body.take(i).filter(is_def()).len() as int;
                assert(k < prev.len());
                if body[n - 1] is FunctionDef {
                    assert(functions_in(body, n)[k] == prev[k]);
                }
            }
        }
    }
}

/// The documented functions of a body, a class's or a module's, are one per
/// `def` statement of the body, in order: there are as many as there are `def`
/// statements, and the documentation of the `def` statement that has `k` others
/// before it comes `k`-th.
pub proof fn lemma_one_function_per_def(body: Seq<PyStmt>)
    ensures
        ({
            let fs = functions_in(body, body.len() as int);
            &&& fs.len() == body.filter(is_def()).len()
            &&& forall|i: int|
                0 <= i < body.len() && (#[trigger] body[i]) is FunctionDef ==> {
                    let k = body.take(i).filter(is_def()).len() as int;
                    &&& k < fs.len()
                    &&& fs[k] == function_view(body[i]->FunctionDef_0)
                }
        }),
{
    lemma_functions_in_defs(body, body.len() as int);
    assert(body.take(body.len() as int) =~= body);
}

/// A class documents every method it defines, in order (see [`lemma_one_function_per_def`]).
pub proof fn lemma_class_methods(c: PyClassDef)
    ensures
        class_view(c).functions.len() == c.body@.filter(is_def()).len(),
        forall|i: int|
            0 <= i < c.body@.len() && (#[trigger] c.body@[i]) is FunctionDef ==> class_view(
                c,
            ).functions[c.body@.take(i).filter(is_def()).len() as int] == function_view(
                c.body@[i]->FunctionDef_0,
            ),
{
    lemma_one_function_per_def(c.body@);
}

/// A module documents every top-level function it defines, in order (see
/// [`lemma_one_function_per_def`]).
pub proof fn lemma_module_functions(
    name: Seq<char>,
    filepath: Seq<char>,
    root: Seq<char>,
    body: Seq<PyStmt>,
)
    ensures
        module_view(name, filepath, root, body).functions.len() == body.filter(is_def()).len(),
        forall|i: int|
            0 <= i < body.len() && (#[trigger] body[i]) is FunctionDef ==> module_view(
                name,
                filepath,
                root,
                body,
            ).functions[body.take(i).filter(is_def()).len() as int] == function_view(
                body[i]->FunctionDef_0,
            ),
{
    lemma_one_function_per_def(body);
}

/// A `class` statement.
pub open spec fn is_class_def() -> spec_fn(PyStmt) -> bool {
    |s: PyStmt| s is ClassDef
}

proof fn lemma_classes_in_defs(body: Seq<PyStmt>, n: int)
    requires
        0 <= n <= body.len(),
    ensures
        classes_in(body, n).len() == body.take(n).filter(is_class_def()).len(),
        forall|i: int|
            0 <= i < n && (#[trigger] body[i]) is ClassDef ==> {
                let k = body.take(i).filter(is_class_def()).len() as int;
                &&& k < classes_in(body, n).len()
                &&& classes_in(body, n)[k] == class_view(body[i]->ClassDef_0)
            },
    decreases n,
{
    reveal(Seq::filter);
    if n == 0 {
        assert(body.take(0) =~= Seq::<PyStmt>::empty());
    } else {
        lemma_classes_in_defs(body, n - 1);
        assert(body.take(n).drop_last() =~= body.take(n - 1));
        assert(body.take(n).last() == body[n - 1]);
        let prev = classes_in(body, n - 1);
        assert forall|i: int|
            0 <= i < n && (#[trigger] body[i]) is ClassDef implies {
                let k = body.take(i).filter(is_class_def()).len() as int;
                &&& k < classes_in(body, n).len()
                &&& classes_in(body, n)[k] == class_view(body[i]->ClassDef_0)
            } by {
            if i < n - 1 {
                let k = body.take(i).filter(is_class_def()).len() as int;
                assert(k < prev.len());
                if body[n - 1] is ClassDef {
                    assert(classes_in(body, n)[k] == prev[k]);
                }
            }
        }
    }
}

/// A module documents every top-level class it defines, in order: as many
/// classes as `class` statements, and the class whose statement has `k` others
/// before it comes `k`-th.
pub proof fn lemma_module_classes(
    name: Seq<char>,
    filepath: Seq<char>,
    root: Seq<char>,
    body: Seq<PyStmt>,
)
    ensures
        module_view(name, filepath, root, body).classes.len() == body.filter(is_class_def()).len(),
        forall|i: int|
            0 <= i < body.len() && (#[trigger] body[i]) is ClassDef ==> module_view(
                name,
                filepath,
                root,
                body,
            ).classes[body.take(i).filter(is_class_def()).len() as int] == class_view(
                body[i]->ClassDef_0,
            ),
{
    lemma_classes_in_defs(body, body.len() as int);
    assert(body.take(body.len() as int) =~= body);
}

} // verus!
