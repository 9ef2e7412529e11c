use vstd::prelude::*;

verus! {

/// A documented Python package: its name and the modules found in it.
#[derive(Debug, Clone)]
pub struct PythonPackage {
    pub name: String,
    pub modules: Vec<PythonModule>,
}

/// One Python source file.
#[derive(Debug, Clone)]
pub struct PythonModule {
    pub name: String,
    pub filepath: String,
    pub docstring: Option<String>,
    pub classes: Vec<PythonClass>,
    pub functions: Vec<PythonFunction>,
    pub z_index: i32,
    pub folder: Option<String>,
    pub link_path: String,
}

/// A class defined at the top level of a module.
#[derive(Debug, Clone)]
pub struct PythonClass {
    pub name: String,
    pub docstring: Option<String>,
    pub functions: Vec<PythonFunction>,
}

/// A function or method, with its rendered signature parts.
#[derive(Debug, Clone)]
pub struct PythonFunction {
    pub name: String,
    pub args: Vec<String>,
    pub return_type: Option<String>,
    pub docstring: Option<String>,
}

/// The command line of the documentation tool.
#[derive(Debug, Clone)]
pub struct Args {
    pub src: String,
    pub out: String,
    pub name: String,
    pub version: String,
    pub templates: Option<String>,
}

/// A function with its parts as characters.
pub struct FunctionView {
    pub name: Seq<char>,
    pub args: Seq<Seq<char>>,
    pub return_type: Option<Seq<char>>,
    pub docstring: Option<Seq<char>>,
}

/// A class with its parts as characters.
pub struct ClassView {
    pub name: Seq<char>,
    pub docstring: Option<Seq<char>>,
    pub functions: Seq<FunctionView>,
}

/// A module with its parts as characters.
pub struct ModuleView {
    pub name: Seq<char>,
    pub filepath: Seq<char>,
    pub docstring: Option<Seq<char>>,
    pub classes: Seq<ClassView>,
    pub functions: Seq<FunctionView>,
    pub z_index: i32,
    pub folder: Option<Seq<char>>,
    pub link_path: Seq<char>,
}

pub open spec fn opt_view(o: Option<String>) -> Option<Seq<char>> {
    match o {
        Some(s) => Some(s@),
        None => None,
    }
}

impl View for PythonFunction {
    type V = FunctionView;

    open spec fn view(&self) -> FunctionView {
        FunctionView {
            name: self.name@,
            args: self.args@.map_values(|a: String| a@),
            return_type: opt_view(self.return_type),
            docstring: opt_view(self.docstring),
        }
    }
}

impl View for PythonClass {
    type V = ClassView;

    open spec fn view(&self) -> ClassView {
        ClassView {
            name: self.name@,
            docstring: opt_view(self.docstring),
            functions: self.functions@.map_values(|f: PythonFunction| f@),
        }
    }
}

impl View for PythonModule {
    type V = ModuleView;

    open spec fn view(&self) -> ModuleView {
        ModuleView {
            name: self.name@,
            filepath: self.filepath@,
            docstring: opt_view(self.docstring),
            classes: self.classes@.map_values(|c: PythonClass| c@),
            functions: self.functions@.map_values(|f: PythonFunction| f@),
            z_index: self.z_index,
            folder: opt_view(self.folder),
            link_path: self.link_path@,
        }
    }
}

} // verus!
