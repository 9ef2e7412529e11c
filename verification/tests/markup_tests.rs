use py_doc::markup::{
    asset_path, image_error_text, image_rewrite, is_remote_url, prepare_markdown_source,
    render_image, AlertType, DocMacro, ImageRewrite, MacroExpander, MarkdownRenderer,
};

fn parse(line: &str) -> Option<DocMacro> {
    DocMacro::parse(line)
}

fn describe(m: Option<DocMacro>) -> String {
    match m {
        None => "none".to_string(),
        Some(DocMacro::Image { path }) => format!("image:{}", path),
        Some(DocMacro::Note { text }) => format!("note:{}", text),
        Some(DocMacro::Warning { text }) => format!("warning:{}", text),
        Some(DocMacro::DocLink { target }) => format!("link:{}", target),
        Some(DocMacro::CodeBlockStart { language }) => format!("code:{}", language),
    }
}

#[test]
fn alert_html_for_each_kind() {
    assert_eq!(
        AlertType::Note.to_html("hi"),
        "\n\n<div class=\"alert alert-note\">\n  <strong>ℹ️ Note:</strong> hi\n</div>\n\n"
    );
    assert_eq!(
        AlertType::Warning.to_html("careful"),
        "\n\n<div class=\"alert alert-warning\">\n  <strong>⚡ Warning:</strong> careful\n</div>\n\n"
    );
    assert_eq!(
        AlertType::Error.to_html("bad"),
        "\n\n<div class=\"alert alert-error\">\n  <strong>⚠️ Error:</strong> bad\n</div>\n\n"
    );
}

#[test]
fn parse_recognises_each_directive() {
    assert_eq!(describe(parse("  #pd-image: img/a.png ")), "image:img/a.png");
    assert_eq!(describe(parse("#pd-note: Remember")), "note:Remember");
    assert_eq!(describe(parse("#pd-warning:Careful ")), "warning:Careful");
    assert_eq!(describe(parse("#pd-doc-link: utils.helper")), "link:utils.helper");
    assert_eq!(describe(parse("#pd-code ```python```")), "code:python");
    assert_eq!(describe(parse("#pd-code")), "code:");
    assert_eq!(describe(parse("plain text")), "none");
    assert_eq!(describe(parse("#pd-unknown: x")), "none");
}

#[test]
fn parse_strips_repeated_markers() {
    assert_eq!(describe(parse("#pd-note:#pd-note: twice")), "note:twice");
}

#[test]
fn render_doc_links() {
    let with_symbol = DocMacro::DocLink { target: "utils.helper".to_string() };
    assert_eq!(
        with_symbol.render(Err(String::new())),
        "\n\n<div class=\"doc-link-container\">🔗 See Reference: <a href=\"utils.html#fn.helper\" class=\"doc-internal-link\"><code>utils.helper</code></a></div>\n\n"
    );
    let module_only = DocMacro::DocLink { target: "utils".to_string() };
    assert_eq!(
        module_only.render(Err(String::new())),
        "\n\n<div class=\"doc-link-container\">🔗 See Reference: <a href=\"utils.html\" class=\"doc-internal-link\"><code>utils</code></a></div>\n\n"
    );
}

#[test]
fn render_images_and_notes() {
    let image = DocMacro::Image { path: "a.png".to_string() };
    assert_eq!(image.render(Ok("assets/a.png".to_string())), "\n\n![Smart Reference](assets/a.png)\n\n");
    assert_eq!(
        render_image(Err("missing".to_string())),
        "\n\n<div class=\"alert alert-error\">\n  <strong>⚠️ Error:</strong> missing\n</div>\n\n"
    );
    let note = DocMacro::Note { text: "n".to_string() };
    assert_eq!(note.render(Ok("ignored".to_string())), AlertType::Note.to_html("n"));
    let code = DocMacro::CodeBlockStart { language: "rust".to_string() };
    assert_eq!(code.render(Err(String::new())), "");
}

#[test]
fn prepare_drops_write_lines_of_prose_pages() {
    let md = "#pd-write\n    Intro\n    #pd-write again\n    Text";
    assert_eq!(prepare_markdown_source(md), "Intro\nText");
}

#[test]
fn prepare_keeps_other_docstrings() {
    let md = "Summary\n    Body #pd-write";
    assert_eq!(prepare_markdown_source(md), "Summary\nBody #pd-write\n");
}

fn expand(lines: &[&str], image: Result<String, String>) -> (String, Vec<String>) {
    let mut ex = MacroExpander::new();
    let mut requests = Vec::new();
    for line in lines {
        if let Some(p) = ex.feed_line(line) {
            requests.push(p);
            ex.supply_image(image.clone());
        }
    }
    (ex.finish(), requests)
}

#[test]
fn expander_handles_code_blocks() {
    let (out, req) = expand(&["Intro", "#pd-code `python`", "x = 1", "  #pd-note: kept", "```", "End"], Err(String::new()));
    assert!(req.is_empty());
    assert_eq!(out, "Intro\n\n\n```python\nx = 1\n  #pd-note: kept\n\n```\n\nEnd\n");
}

#[test]
fn expander_asks_for_images() {
    let (out, req) = expand(&["#pd-image: pics/a.png", "after"], Ok("assets/a.png".to_string()));
    assert_eq!(req, vec!["pics/a.png".to_string()]);
    assert_eq!(out, "\n\n![Smart Reference](assets/a.png)\n\nafter\n");
}

#[test]
fn expander_renders_notes_and_drops_unclosed_code() {
    let (out, _) = expand(&["#pd-warning: w", "#pd-code", "lost"], Err(String::new()));
    assert_eq!(out, AlertType::Warning.to_html("w"));
}

#[test]
fn remote_urls() {
    assert!(is_remote_url("http://x/a.png"));
    assert!(is_remote_url("https://x/a.png"));
    assert!(!is_remote_url("img/a.png"));
    assert!(!is_remote_url("ftp://x"));
}

#[test]
fn image_error_text_wraps_message() {
    assert_eq!(image_error_text("gone"), "[⚠️ Image Error: gone]");
}

#[test]
fn expander_passes_plain_text_through() {
    let (out, req) = expand(&["First line", "  indented", ""], Err(String::new()));
    assert!(req.is_empty());
    assert_eq!(out, "First line\n  indented\n\n");
}

fn rewrite_text(r: &ImageRewrite) -> String {
    match r {
        ImageRewrite::Keep => "keep".to_string(),
        ImageRewrite::Dest(p) => format!("dest:{}", p),
        ImageRewrite::Text(t) => format!("text:{}", t),
    }
}

/// Renders `doc`, answering the copies asked for with `copies` in order; gives
/// the paths asked for (each with whether it was an image of the Markdown) and the HTML.
fn render(doc: &str, copies: &[Result<String, String>]) -> (Vec<(String, bool)>, String) {
    let mut renderer = MarkdownRenderer::new(doc);
    let mut asked = Vec::new();
    while let Some(path) = renderer.next_copy() {
        asked.push((path, renderer.in_images()));
        let outcome = copies.get(asked.len() - 1).cloned().unwrap_or(Err("none".to_string()));
        renderer.supply_copy(outcome);
    }
    (asked, renderer.finish())
}

#[test]
fn local_images_are_asked_for_in_document_order() {
    let md = "Intro ![a](img/a.png) and ![b](https://x.org/b.png)\n\n![c](c.gif \"title\")\n";
    let (asked, _) = render(md, &[Ok("assets/a.png".to_string()), Ok("assets/c.gif".to_string())]);
    assert_eq!(asked, vec![("img/a.png".to_string(), true), ("c.gif".to_string(), true)]);
}

#[test]
fn a_docstring_without_images_asks_for_no_copy() {
    let (asked, html) = render("# Title\n\nSome *text*, ![web](http://x.org/w.png).\n", &[]);
    assert!(asked.is_empty());
    assert_eq!(html, "<h1>Title</h1>\n<p>Some <em>text</em>, <img src=\"http://x.org/w.png\" alt=\"web\" />.</p>\n");
}

#[test]
fn image_directives_are_asked_for_before_the_markdown_images() {
    // The directive's image becomes a Markdown image of its copy, which is then
    // asked for like any other local image of the Markdown.
    let doc = "![m](m.png)\n#pd-image: pics/d.png\n";
    let copies = [
        Ok("assets/d.png".to_string()),
        Ok("assets/m.png".to_string()),
        Ok("assets/d.png".to_string()),
    ];
    let (asked, html) = render(doc, &copies);
    assert_eq!(
        asked,
        vec![
            ("pics/d.png".to_string(), false),
            ("m.png".to_string(), true),
            ("assets/d.png".to_string(), true),
        ]
    );
    assert!(html.contains("<img src=\"assets/m.png\" alt=\"m\" />"), "{}", html);
    assert!(html.contains("<img src=\"assets/d.png\" alt=\"Smart Reference\" />"), "{}", html);
    assert!(!html.contains("pics/d.png"), "{}", html);
}

#[test]
fn a_failed_copy_shows_its_error() {
    let (_, html) = render("![c](c.png)\n", &[Err("gone".to_string())]);
    assert!(html.contains("[⚠️ Image Error: gone]"), "{}", html);
    assert!(!html.contains("src=\"c.png\""), "{}", html);
}

#[test]
fn rendering_twice_without_copies_gives_the_same_html() {
    let doc = "  Title\n    body with `code`\n\n    > quote\n";
    let (a1, h1) = render(doc, &[]);
    let (a2, h2) = render(doc, &[Ok("ignored".to_string())]);
    assert!(a1.is_empty() && a2.is_empty());
    assert_eq!(h1, h2);
}

#[test]
fn remote_images_are_kept() {
    let r = image_rewrite("http://example.com/a.png", Err("unused".to_string()));
    assert_eq!(rewrite_text(&r), "keep");
    let r = image_rewrite("https://example.com/a.png", Ok("assets/a.png".to_string()));
    assert_eq!(rewrite_text(&r), "keep");
}

#[test]
fn local_images_point_at_their_copy_or_show_the_error() {
    let r = image_rewrite("img/a.png", Ok("assets/a.png".to_string()));
    assert_eq!(rewrite_text(&r), "dest:assets/a.png");
    let r = image_rewrite("img/a.png", Err("missing".to_string()));
    assert_eq!(rewrite_text(&r), "text:[⚠️ Image Error: missing]");
}

#[test]
fn asset_paths_are_in_the_assets_folder() {
    assert_eq!(asset_path("logo.png"), "assets/logo.png");
}
