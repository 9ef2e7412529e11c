//! The verified core of a documentation generator for Python projects:
//! docstring clean-up, the `#pd-...` directives, module extraction, path
//! handling, navigation ordering and grouping, symbol resolution, the
//! `striptags` filter, and the compiling of the theme's templates.
pub mod docstring;
pub mod extract;
pub mod markup;
pub mod models;
pub mod navigation;
pub mod paths;
pub mod resolver;
pub mod tags;
pub mod templates;
pub mod text;
