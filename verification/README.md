# py-doc

A documentation generator for Python projects: it reads the modules of a
Python source tree and writes a cargo-doc style site of HTML pages.

The crate is written in Verus. `src/` is the verified library:

- `text` — characters, trimming, prefixes, `str::lines`-style line splitting,
  joining, `i32` parsing and UTF-8 widths;
- `docstring` — removing the indentation of docstrings and the
  `#pd-z-index:` ordering directive;
- `markup` — the `#pd-...` directives (notes, warnings, reference links,
  images, code blocks), the preparation of a docstring's Markdown, and its
  rendering to HTML with pulldown-cmark, driven as a state machine that asks
  the caller for each image to copy;
- `paths` — Unix path components, file stems, the folder of a module and
  which files of the source tree are documented;
- `extract` — the documentation of functions, classes and modules read from a
  Python syntax tree;
- `navigation` — ordering modules and grouping them by folder;
- `resolver` — the map from symbol names to pages;
- `tags` — the `striptags` template filter;
- `templates` — compiling the theme's four templates with tera;
- `models` — the documentation's data types.

`app/` is the program around it: the command line, walking the source tree,
parsing Python, reading or downloading the templates, rendering pages,
copying images and downloading the theme's assets.
