use py_doc::templates::build_tera;
use tera::Context;

const SIDEBAR: &str = "<nav>{{ title }}</nav>";
const INDEX: &str = "{% include \"sidebar.html\" %}<main>index</main>";
const MODULE: &str = "<main>{{ doc | striptags }}</main>";
const DOCUMENT: &str = "<article>{{ doc }}</article>";

#[test]
fn theme_templates_load_and_render() {
    let tera = match build_tera(SIDEBAR, INDEX, MODULE, DOCUMENT) {
        Ok(t) => t,
        Err(e) => panic!("{} did not load: {}", e.file, e.error),
    };
    let mut context = Context::new();
    context.insert("title", "pkg");
    context.insert("doc", "<p>Hello <b>World</b></p>");
    assert_eq!(tera.render("module.html", &context).unwrap(), "<main>Hello World</main>");
    assert_eq!(tera.render("index.html", &context).unwrap(), "<nav>pkg</nav><main>index</main>");
}

#[test]
fn a_broken_template_is_named() {
    match build_tera(SIDEBAR, "{% if %}", MODULE, DOCUMENT) {
        Ok(_) => panic!("a broken template loaded"),
        Err(e) => assert_eq!(e.file, "index.html"),
    }
}

#[test]
fn an_unknown_filter_is_refused() {
    match build_tera(SIDEBAR, INDEX, MODULE, "{{ doc | no_such_filter }}") {
        Ok(_) => panic!("an unknown filter was accepted"),
        Err(e) => assert_eq!(e.file, "document.html"),
    }
}

#[test]
fn the_first_refused_template_is_reported() {
    match build_tera("{{", "{% if %}", MODULE, DOCUMENT) {
        Ok(_) => panic!("broken templates loaded"),
        Err(e) => assert_eq!(e.file, "sidebar.html"),
    }
}

#[test]
fn an_include_of_a_later_template_is_refused() {
    match build_tera("{% include \"module.html\" %}", INDEX, MODULE, DOCUMENT) {
        Ok(_) => panic!("an include of a missing template loaded"),
        Err(e) => assert_eq!(e.file, "sidebar.html"),
    }
}
