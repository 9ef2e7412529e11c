//! The `#pd-...` directives that docstrings may hold, and the preparation of a
//! docstring's Markdown: alert boxes, reference links, image references and
//! fenced code blocks.
use vstd::prelude::*;
use pulldown_cmark::{html, Event, Parser, Tag};

use crate::docstring::{cleaned_docstring, clean_docstring, dedent_defined};
use crate::text::{
    chars_of, copy_range, find_char, index_of_from, join_lines, join_with, lemma_index_of_from,
    lines, run_end, same_chars, split_lines, starts_with, starts_with_at, string_of, string_views,
    terminated, text_lines, trim, trim_by, trim_range, trim_start, trim_start_matches, trim_start_matches_from, utf8_len,
    views, TrimSet,
};

verus! {

// ---------------------------------------------------------------------------
// Alert boxes
// ---------------------------------------------------------------------------

/// The kinds of alert box a docstring can show.
pub enum AlertType {
    Error,
    Note,
    Warning,
}

/// The CSS class, icon and title of an alert box.
pub open spec fn alert_parts(kind: AlertType) -> (Seq<char>, Seq<char>, Seq<char>) {
    match kind {
        AlertType::Error => ("alert-error"@, "⚠️"@, "Error"@),
        AlertType::Note => ("alert-note"@, "ℹ️"@, "Note"@),
        AlertType::Warning => ("alert-warning"@, "⚡"@, "Warning"@),
    }
}

/// The HTML of an alert box holding `content`.
pub open spec fn alert_html(kind: AlertType, content: Seq<char>) -> Seq<char> {
    let (class, icon, title) = alert_parts(kind);
    "\n\n<div class=\"alert "@ + class + "\">\n  <strong>"@ + icon + " "@ + title
        + ":</strong> "@ + content + "\n</div>\n\n"@
}

impl AlertType {
    /// The HTML of this alert box around `content`.
    pub fn to_html(&self, content: &str) -> (r: String)
        ensures
            r@ == alert_html(*self, content@),
    {
        let (class_name, icon, title) = match self {
            AlertType::Error => ("alert-error", "⚠️", "Error"),
            AlertType::Note => ("alert-note", "ℹ️", "Note"),
            AlertType::Warning => ("alert-warning", "⚡", "Warning"),
        };
        let mut r = String::new();
        r.push_str("\n\n<div class=\"alert ");
        r.push_str(class_name);
        r.push_str("\">\n  <strong>");
        r.push_str(icon);
        r.push_str(" ");
        r.push_str(title);
        r.push_str(":</strong> ");
        r.push_str(content);
        r.push_str("\n</div>\n\n");
        assert(r@ =~= alert_html(*self, content@));
        r
    }
}

// ---------------------------------------------------------------------------
// Directives
// ---------------------------------------------------------------------------

/// A directive line of a docstring.
pub enum DocMacro {
    /// `#pd-image: <path>`: an image copied next to the pages.
    Image { path: String },
    /// `#pd-note: <text>`: a note box.
    Note { text: String },
    /// `#pd-warning: <text>`: a warning box.
    Warning { text: String },
    /// `#pd-doc-link: <module>[.<symbol>]`: a link to another page.
    DocLink { target: String },
    /// `#pd-code <language>`: the start of a code block that ends at a line "```".
    CodeBlockStart { language: String },
}

/// A directive, with its argument as characters.
pub enum DocMacroSpec {
    Image(Seq<char>),
    Note(Seq<char>),
    Warning(Seq<char>),
    DocLink(Seq<char>),
    CodeBlockStart(Seq<char>),
}

impl View for DocMacro {
    type V = DocMacroSpec;

    open spec fn view(&self) -> DocMacroSpec {
        match self {
            DocMacro::Image { path } => DocMacroSpec::Image(path@),
            DocMacro::Note { text } => DocMacroSpec::Note(text@),
            DocMacro::Warning { text } => DocMacroSpec::Warning(text@),
            DocMacro::DocLink { target } => DocMacroSpec::DocLink(target@),
            DocMacro::CodeBlockStart { language } => DocMacroSpec::CodeBlockStart(language@),
        }
    }
}

/// What follows a directive's marker: every leading repetition of the marker
/// removed, then trimmed.
pub open spec fn macro_argument(t: Seq<char>, marker: Seq<char>) -> Seq<char> {
    trim(trim_start_matches(t, marker))
}

/// The directive that a line holds, judged on the line trimmed. The markers are
/// tried in the order image, note, warning, doc-link, code; the language of a
/// code block loses its surrounding backticks.
pub open spec fn parse_doc_macro(line: Seq<char>) -> Option<DocMacroSpec> {
    let t = trim(line);
    if starts_with(t, "#pd-image:"@) {
        Some(DocMacroSpec::Image(macro_argument(t, "#pd-image:"@)))
    } else if starts_with(t, "#pd-note:"@) {
        Some(DocMacroSpec::Note(macro_argument(t, "#pd-note:"@)))
    } else if starts_with(t, "#pd-warning:"@) {
        Some(DocMacroSpec::Warning(macro_argument(t, "#pd-warning:"@)))
    } else if starts_with(t, "#pd-doc-link:"@) {
        Some(DocMacroSpec::DocLink(macro_argument(t, "#pd-doc-link:"@)))
    } else if starts_with(t, "#pd-code"@) {
        Some(
            DocMacroSpec::CodeBlockStart(
                trim_by(macro_argument(t, "#pd-code"@), TrimSet::Char('`')),
            ),
        )
    } else {
        None
    }
}

/// The Markdown that stands for an image: a reference to the copied file, or an
/// error box when the copy failed.
pub open spec fn image_markdown(copy: Result<Seq<char>, Seq<char>>) -> Seq<char> {
    match copy {
        Ok(rel_path) => "\n\n![Smart Reference]("@ + rel_path + ")\n\n"@,
        Err(message) => alert_html(AlertType::Error, message),
    }
}

/// The link of a reference: `<module>.html#fn.<symbol>` when the target has a
/// dot (split at the first one), `<target>.html` otherwise.
pub open spec fn doc_link_html(target: Seq<char>) -> Seq<char> {
    let dot = index_of_from(target, 0, '.');
    if dot < target.len() {
        "<a href=\""@ + target.take(dot) + ".html#fn."@ + target.skip(dot + 1)
            + "\" class=\"doc-internal-link\"><code>"@ + target + "</code></a>"@
    } else {
        "<a href=\""@ + target + ".html\" class=\"doc-internal-link\"><code>"@ + target
            + "</code></a>"@
    }
}

/// The HTML of a reference box.
pub open spec fn doc_link_box(target: Seq<char>) -> Seq<char> {
    "\n\n<div class=\"doc-link-container\">🔗 See Reference: "@ + doc_link_html(target)
        + "</div>\n\n"@
}

/// What a directive becomes in the Markdown; `copy` is the outcome of copying
/// the image of an image directive and is not used by the others.
pub open spec fn render_macro(m: DocMacroSpec, copy: Result<Seq<char>, Seq<char>>) -> Seq<char> {
    match m {
        DocMacroSpec::Image(_) => image_markdown(copy),
        DocMacroSpec::Note(text) => alert_html(AlertType::Note, text),
        DocMacroSpec::Warning(text) => alert_html(AlertType::Warning, text),
        DocMacroSpec::DocLink(target) => doc_link_box(target),
        DocMacroSpec::CodeBlockStart(_) => Seq::empty(),
    }
}

pub open spec fn result_view(r: Result<String, String>) -> Result<Seq<char>, Seq<char>> {
    match r {
        Ok(s) => Ok(s@),
        Err(s) => Err(s@),
    }
}

/// The trimmed argument of `t` after `marker`, when `t` starts with it.
fn argument_after(t: &[char], marker: &str) -> (r: Option<Vec<char>>)
    requires
        marker@.len() > 0,
    ensures
        r is Some <==> starts_with(t@, marker@),
        r matches Some(a) ==> a@ == macro_argument(t@, marker@),
{
    let m = chars_of(marker);
    if !starts_with_at(t, 0, &m) {
        assert(t@.skip(0) =~= t@);
        return None;
    }
    assert(t@.skip(0) =~= t@);
    let k = trim_start_matches_from(t, 0, &m);
    let rest = copy_range(t, k, t.len());
    assert(rest@ =~= t@.skip(k as int));
    let (a, b) = trim_range(&rest, TrimSet::Whitespace);
    Some(copy_range(&rest, a, b))
}

impl DocMacro {
    /// The directive on `line`, if it holds one.
    pub fn parse(line: &str) -> (r: Option<DocMacro>)
        ensures
            match r {
                Some(m) => parse_doc_macro(line@) == Some(m@),
                None => parse_doc_macro(line@) is None,
            },
    {
        proof {
            reveal_strlit("#pd-image:");
            reveal_strlit("#pd-note:");
            reveal_strlit("#pd-warning:");
            reveal_strlit("#pd-doc-link:");
            reveal_strlit("#pd-code");
        }
        let chars = chars_of(line);
        let (a, b) = trim_range(&chars, TrimSet::Whitespace);
        let t = copy_range(&chars, a, b);
        if let Some(path) = argument_after(&t, "#pd-image:") {
            Some(DocMacro::Image { path: string_of(&path) })
        } else if let Some(text) = argument_after(&t, "#pd-note:") {
            Some(DocMacro::Note { text: string_of(&text) })
        } else if let Some(text) = argument_after(&t, "#pd-warning:") {
            Some(DocMacro::Warning { text: string_of(&text) })
        } else if let Some(target) = argument_after(&t, "#pd-doc-link:") {
            Some(DocMacro::DocLink { target: string_of(&target) })
        } else if let Some(lang) = argument_after(&t, "#pd-code") {
            let (c, d) = trim_range(&lang, TrimSet::Char('`'));
            Some(DocMacro::CodeBlockStart { language: string_of(&copy_range(&lang, c, d)) })
        } else {
            None
        }
    }

    /// What this directive becomes in the Markdown. `image_copy` is the outcome
    /// of copying the image of an image directive: the path to refer to, or the
    /// message of the failure; the other directives do not use it.
    pub fn render(self, image_copy: Result<String, String>) -> (r: String)
        ensures
            r@ == render_macro(self@, result_view(image_copy)),
    {
        match self {
            DocMacro::Image { .. } => render_image(image_copy),
            DocMacro::Note { text } => AlertType::Note.to_html(text.as_str()),
            DocMacro::Warning { text } => AlertType::Warning.to_html(text.as_str()),
            DocMacro::DocLink { target } => render_doc_link(&target),
            DocMacro::CodeBlockStart { .. } => String::new(),
        }
    }
}

/// The Markdown for an image directive, given the outcome of copying the image.
pub fn render_image(image_copy: Result<String, String>) -> (r: String)
    ensures
        r@ == image_markdown(result_view(image_copy)),
{
    match image_copy {
        Ok(rel_path) => {
            let mut r = String::new();
            r.push_str("\n\n![Smart Reference](");
            r.push_str(rel_path.as_str());
            r.push_str(")\n\n");
            r
        },
        Err(message) => AlertType::Error.to_html(message.as_str()),
    }
}

fn render_doc_link(target: &String) -> (r: String)
    ensures
        r@ == doc_link_box(target@),
{
    let chars = chars_of(target.as_str());
    let dot = find_char(&chars, 0, '.');
    proof {
        lemma_index_of_from(chars@, 0, '.');
    }
    let mut link = String::new();
    if dot < chars.len() {
        let module = string_of(&copy_range(&chars, 0, dot));
        let symbol = string_of(&copy_range(&chars, dot + 1, chars.len()));
        assert(module@ =~= target@.take(dot as int));
        assert(symbol@ =~= target@.skip(dot + 1));
        link.push_str("<a href=\"");
        link.push_str(module.as_str());
        link.push_str(".html#fn.");
        link.push_str(symbol.as_str());
        link.push_str("\" class=\"doc-internal-link\"><code>");
        link.push_str(target.as_str());
        link.push_str("</code></a>");
    } else {
        link.push_str("<a href=\"");
        link.push_str(target.as_str());
        link.push_str(".html\" class=\"doc-internal-link\"><code>");
        link.push_str(target.as_str());
        link.push_str("</code></a>");
    }
    assert(link@ =~= doc_link_html(target@));
    let mut r = String::new();
    r.push_str("\n\n<div class=\"doc-link-container\">🔗 See Reference: ");
    r.push_str(link.as_str());
    r.push_str("</div>\n\n");
    assert(r@ =~= doc_link_box(target@));
    r
}

// ---------------------------------------------------------------------------
// Preparing a docstring's Markdown
// ---------------------------------------------------------------------------

/// A line that, trimmed, starts with `#pd-write` (the mark of a page of prose).
pub open spec fn is_write_line(l: Seq<char>) -> bool {
    starts_with(trim(l), "#pd-write"@)
}

/// The lines of `ls[0..n]` that are not `#pd-write` lines, in order.
pub open spec fn without_write_lines(ls: Seq<Seq<char>>, n: int) -> Seq<Seq<char>>
    decreases n,
{
    if n <= 0 {
        Seq::empty()
    } else if is_write_line(ls[n - 1]) {
        without_write_lines(ls, n - 1)
    } else {
        without_write_lines(ls, n - 1).push(ls[n - 1])
    }
}

/// The Markdown source of a docstring: the docstring cleaned, and, when it
/// begins with `#pd-write`, without its `#pd-write` lines (then joined by newlines).
pub open spec fn markdown_source(markdown: Seq<char>) -> Seq<char> {
    let d = cleaned_docstring(markdown);
    if starts_with(trim_start(d), "#pd-write"@) {
        let ls = lines(d);
        join_with(without_write_lines(ls, ls.len() as int), "\n"@)
    } else {
        d
    }
}

/// Whether the trimmed `l` starts with `marker`.
fn trimmed_starts_with(l: &[char], marker: &[char]) -> (r: bool)
    ensures
        r == starts_with(trim(l@), marker@),
{
    let (a, b) = trim_range(l, TrimSet::Whitespace);
    let t = copy_range(l, a, b);
    assert(t@.skip(0) =~= t@);
    starts_with_at(&t, 0, marker)
}

/// Cleans a docstring (see `clean_docstring`) and, when what remains begins
/// with `#pd-write`, drops every `#pd-write` line.
pub fn prepare_markdown_source(markdown: &str) -> (r: String)
    requires
        utf8_len(markdown@) < usize::MAX,
        dedent_defined(markdown@),
    ensures
        r@ == markdown_source(markdown@),
{
    let dedented = clean_docstring(markdown);
    let chars = chars_of(dedented.as_str());
    let marker = chars_of("#pd-write");
    let k = run_end(&chars, 0, TrimSet::Whitespace);
    if !starts_with_at(&chars, k, &marker) {
        return dedented;
    }
    let ls = split_lines(&chars);
    let ghost lv = views(ls@);
    let mut kept: Vec<Vec<char>> = Vec::new();
    let n = ls.len();
    let mut i: usize = 0;
    while i < n
        invariant
            i <= n,
            n == ls@.len(),
            lv == views(ls@),
            marker@ == "#pd-write"@,
            views(kept@) == without_write_lines(lv, i as int),
        decreases n - i,
    {
        let line = &ls[i];
        assert(lv[i as int] == line@);
        if !trimmed_starts_with(line, &marker) {
            let ghost before = kept@;
            kept.push(copy_range(line, 0, line.len()));
            assert(line@.subrange(0, line@.len() as int) =~= line@);
            assert(views(kept@) =~= views(before).push(line@));
        }
        i += 1;
    }
    let newline = chars_of("\n");
    string_of(&join_lines(&kept, &newline))
}

// ---------------------------------------------------------------------------
// Expanding directives, line by line
// ---------------------------------------------------------------------------

/// The state of the expansion of a Markdown source.
pub struct ExpanderState {
    /// The Markdown produced so far.
    pub processed: Seq<char>,
    /// Inside a `#pd-code` block.
    pub in_code: bool,
    /// The language of the open code block.
    pub language: Seq<char>,
    /// The lines of the open code block, each followed by a newline.
    pub code: Seq<char>,
}

/// A fenced Markdown code block.
pub open spec fn code_block_markdown(language: Seq<char>, code: Seq<char>) -> Seq<char> {
    "\n\n```"@ + language + "\n"@ + code + "\n```\n\n"@
}

/// The image path that `line` asks to be copied: an image directive outside a
/// code block.
pub open spec fn image_request(st: ExpanderState, line: Seq<char>) -> Option<Seq<char>> {
    if st.in_code {
        None
    } else {
        match parse_doc_macro(line) {
            Some(DocMacroSpec::Image(target)) => Some(target),
            _ => None,
        }
    }
}

/// The state after a line that asks for no image. Inside a code block, a line
/// "```" (trimmed) closes the block and emits it, any other line is collected.
/// Outside, `#pd-code` opens a block, other directives are rendered, and
/// ordinary lines are kept, each followed by a newline.
pub open spec fn expand_step(st: ExpanderState, line: Seq<char>) -> ExpanderState {
    if st.in_code {
        if trim(line) == "```"@ {
            ExpanderState {
                processed: st.processed + code_block_markdown(st.language, st.code),
                in_code: false,
                language: st.language,
                code: st.code,
            }
        } else {
            ExpanderState {
                processed: st.processed,
                in_code: true,
                language: st.language,
                code: st.code + line + "\n"@,
            }
        }
    } else {
        match parse_doc_macro(line) {
            Some(DocMacroSpec::CodeBlockStart(language)) => ExpanderState {
                processed: st.processed,
                in_code: true,
                language: language,
                code: Seq::empty(),
            },
            Some(m) => ExpanderState {
                processed: st.processed + render_macro(m, Err(Seq::empty())),
                in_code: false,
                language: st.language,
                code: st.code,
            },
            None => ExpanderState {
                processed: st.processed + line + "\n"@,
                in_code: false,
                language: st.language,
                code: st.code,
            },
        }
    }
}

/// Expands the directives of a Markdown source, one line at a time.
///
/// The caller hands over the lines in order. For an image directive the
/// expander asks for the image to be copied and waits for the outcome
/// (`supply_image`); every other line is handled at once.
pub struct MacroExpander {
    processed: String,
    in_custom_code: bool,
    code_language: String,
    code_accumulator: String,
}

impl View for MacroExpander {
    type V = ExpanderState;

    closed spec fn view(&self) -> ExpanderState {
        ExpanderState {
            processed: self.processed@,
            in_code: self.in_custom_code,
            language: self.code_language@,
            code: self.code_accumulator@,
        }
    }
}

impl MacroExpander {
    /// An expander that has seen no line.
    pub fn new() -> (r: Self)
        ensures
            r@ == (ExpanderState {
                processed: Seq::empty(),
                in_code: false,
                language: Seq::empty(),
                code: Seq::empty(),
            }),
    {
        MacroExpander {
            processed: String::new(),
            in_custom_code: false,
            code_language: String::new(),
            code_accumulator: String::new(),
        }
    }

    /// Takes the next line. Returns the path of the image to copy when the line
    /// is an image directive outside a code block, and then changes nothing;
    /// otherwise handles the line.
    pub fn feed_line(&mut self, line: &str) -> (request: Option<String>)
        ensures
            request is Some <==> image_request(old(self)@, line@) is Some,
            request matches Some(image) ==> image@ == image_request(old(self)@, line@)->0
                && final(self)@ == old(self)@,
            request is None ==> final(self)@ == expand_step(old(self)@, line@),
    {
        if self.in_custom_code {
            let chars = chars_of(line);
            let (a, b) = trim_range(&chars, TrimSet::Whitespace);
            let t = copy_range(&chars, a, b);
            let fence = chars_of("```");
            if same_chars(&t, &fence) {
                self.in_custom_code = false;
                self.processed.push_str("\n\n```");
                self.processed.push_str(self.code_language.as_str());
                self.processed.push_str("\n");
                self.processed.push_str(self.code_accumulator.as_str());
                self.processed.push_str("\n```\n\n");
                assert(self.processed@ =~= old(self).processed@ + code_block_markdown(
                    old(self).code_language@,
                    old(self).code_accumulator@,
                ));
            } else {
                self.code_accumulator.push_str(line);
                self.code_accumulator.push_str("\n");
                assert(self.code_accumulator@ =~= old(self).code_accumulator@ + line@ + "\n"@);
            }
            return None;
        }
        match DocMacro::parse(line) {
            Some(DocMacro::Image { path: image }) => Some(image),
            Some(DocMacro::CodeBlockStart { language }) => {
                self.in_custom_code = true;
                self.code_language = language;
                self.code_accumulator = String::new();
                None
            },
            Some(other) => {
                let html = other.render(Err(String::new()));
                self.processed.push_str(html.as_str());
                None
            },
            None => {
                self.processed.push_str(line);
                self.processed.push_str("\n");
                assert(self.processed@ =~= old(self).processed@ + line@ + "\n"@);
                None
            },
        }
    }

    /// Adds what an image directive becomes, given the outcome of copying its
    /// image: the path to refer to, or the message of the failure.
    pub fn supply_image(&mut self, image_copy: Result<String, String>)
        ensures
            final(self)@ == (ExpanderState {
                processed: old(self)@.processed + image_markdown(result_view(image_copy)),
                ..old(self)@
            }),
    {
        let md = render_image(image_copy);
        self.processed.push_str(md.as_str());
    }

    /// The Markdown produced so far.
    pub fn finish(self) -> (r: String)
        ensures
            r@ == self@.processed,
    {
        self.processed
    }
}

// ---------------------------------------------------------------------------
// Images inside the Markdown
// ---------------------------------------------------------------------------

/// An image destination that is left as it is: one on the web.
pub open spec fn is_remote(dest: Seq<char>) -> bool {
    starts_with(dest, "http://"@) || starts_with(dest, "https://"@)
}

/// Whether an image of the Markdown refers to the web (and is not copied).
pub fn is_remote_url(dest: &str) -> (r: bool)
    ensures
        r == is_remote(dest@),
{
    let chars = chars_of(dest);
    let http = chars_of("http://");
    let https = chars_of("https://");
    assert(chars@.skip(0) =~= chars@);
    starts_with_at(&chars, 0, &http) || starts_with_at(&chars, 0, &https)
}

/// Where a local image copied into the output is linked from the pages: the
/// `assets` folder, under its file name.
pub fn asset_path(file_name: &str) -> (r: String)
    ensures
        r@ == "assets/"@ + file_name@,
{
    let mut r = String::new();
    r.push_str("assets/");
    r.push_str(file_name);
    r
}

/// The text that replaces an image of the Markdown whose copy failed.
pub fn image_error_text(message: &str) -> (r: String)
    ensures
        r@ == "[⚠️ Image Error: "@ + message@ + "]"@,
{
    let mut r = String::new();
    r.push_str("[⚠️ Image Error: ");
    r.push_str(message);
    r.push_str("]");
    r
}

// ---------------------------------------------------------------------------
// Markdown to HTML
// ---------------------------------------------------------------------------

/// How one image of the Markdown is written into the HTML.
#[derive(Debug)]
pub enum ImageRewrite {
    /// The image is left as the Markdown has it.
    Keep,
    /// The image points at this path instead.
    Dest(String),
    /// The image is replaced by this text.
    Text(String),
}

/// An image rewrite taken by its characters.
pub enum ImageRewriteView {
    Keep,
    Dest(Seq<char>),
    Text(Seq<char>),
}

impl View for ImageRewrite {
    type V = ImageRewriteView;

    open spec fn view(&self) -> ImageRewriteView {
        match self {
            ImageRewrite::Keep => ImageRewriteView::Keep,
            ImageRewrite::Dest(p) => ImageRewriteView::Dest(p@),
            ImageRewrite::Text(t) => ImageRewriteView::Text(t@),
        }
    }
}

/// Each rewrite taken by its characters.
pub open spec fn rewrite_views(rw: Seq<ImageRewrite>) -> Seq<ImageRewriteView> {
    rw.map_values(|r: ImageRewrite| r@)
}

/// The destinations of the images of the Markdown text `md`, in the order in
/// which pulldown-cmark's parser meets them.
pub uninterp spec fn markdown_images(md: Seq<char>) -> Seq<Seq<char>>;

/// The HTML that pulldown-cmark writes for the Markdown text `md`, where the
/// i-th image it meets is rewritten as `rw[i]` says (an image past the end of
/// `rw` is kept).
pub uninterp spec fn markdown_html(md: Seq<char>, rw: Seq<ImageRewriteView>) -> Seq<char>;

/// Runs `pulldown_cmark::Parser::new(md)` and collects the destination of each
/// `Event::Start(Tag::Image { .. })` in order. Trusted: the result is
/// `markdown_images(md)`, a name for what the parser finds in `md` alone.
#[verifier::external_body]
fn image_destinations(md: &str) -> (r: Vec<String>)
    ensures
        string_views(r@) == markdown_images(md@),
{
    let mut out = Vec::new();
    for event in Parser::new(md) {
        if let Event::Start(Tag::Image { dest_url, .. }) = event {
            out.push(dest_url.into_string());
        }
    }
    out
}

/// Runs `pulldown_cmark::Parser::new(md)`, hands the i-th image start event the
/// rewrite `rw[i]` (a new destination, or a text event in its place) and
/// writes the events with `pulldown_cmark::html::push_html`. Trusted: the result
/// is `markdown_html(md, rw)`, a name for that output, which depends on `md`
/// and `rw` alone.
#[verifier::external_body]
fn render_html(md: &str, rw: &Vec<ImageRewrite>) -> (r: String)
    ensures
        r@ == markdown_html(md@, rewrite_views(rw@)),
{
    let mut rewrites = rw.iter();
    let events = Parser::new(md).map(|event| match event {
        Event::Start(Tag::Image { link_type, dest_url, title, id }) => match rewrites.next() {
            Some(ImageRewrite::Dest(p)) => Event::Start(Tag::Image { link_type, dest_url: p.clone().into(), title, id }),
            Some(ImageRewrite::Text(t)) => Event::Text(t.clone().into()),
            _ => Event::Start(Tag::Image { link_type, dest_url, title, id }),
        },
        other => other,
    });
    let mut out = String::new();
    html::push_html(&mut out, events);
    out
}

/// What becomes of an image with destination `dest`: one on the web is kept;
/// for a local one, `copy` is the outcome of copying it into the output, and
/// the image then points at the copy, or shows the error in its place.
pub open spec fn rewrite_of(dest: Seq<char>, copy: Result<Seq<char>, Seq<char>>) -> ImageRewriteView {
    if is_remote(dest) {
        ImageRewriteView::Keep
    } else {
        match copy {
            Ok(path) => ImageRewriteView::Dest(path),
            Err(message) => ImageRewriteView::Text("[⚠️ Image Error: "@ + message + "]"@),
        }
    }
}

/// The rewrite of an image of the Markdown with destination `dest`, where
/// `copy` is the outcome of copying a local image (it is not looked at for an
/// image on the web).
pub fn image_rewrite(dest: &str, copy: Result<String, String>) -> (r: ImageRewrite)
    ensures
        r@ == rewrite_of(dest@, result_view(copy)),
{
    if is_remote_url(dest) {
        ImageRewrite::Keep
    } else {
        match copy {
            Ok(path) => ImageRewrite::Dest(path),
            Err(message) => ImageRewrite::Text(image_error_text(message.as_str())),
        }
    }
}

// ---------------------------------------------------------------------------
// Rendering a docstring, copies asked for one at a time
// ---------------------------------------------------------------------------

/// The expander before any line.
pub open spec fn initial_expander() -> ExpanderState {
    ExpanderState { processed: Seq::empty(), in_code: false, language: Seq::empty(), code: Seq::empty() }
}

/// The state of the rendering of a docstring: first the lines of its Markdown
/// source go through the expander; then the images of the expanded Markdown are
/// given their rewrites, in order; an image to copy stops the rendering until
/// the outcome of the copy comes back.
#[verifier::ext_equal]
pub struct RenderState {
    /// The lines of the Markdown source.
    pub lines: Seq<Seq<char>>,
    /// The next line for the expander.
    pub next_line: int,
    /// The expander, after the lines before `next_line`.
    pub expander: ExpanderState,
    /// The destinations of the images of the expanded Markdown, once every line is expanded.
    pub images: Option<Seq<Seq<char>>>,
    /// The rewrites of the first images.
    pub rewrites: Seq<ImageRewriteView>,
    /// The path of the image whose copy is awaited.
    pub waiting: Option<Seq<char>>,
}

/// The rendering of a docstring before it starts.
pub open spec fn initial_render(markdown: Seq<char>) -> RenderState {
    RenderState {
        lines: lines(markdown_source(markdown)),
        next_line: 0,
        expander: initial_expander(),
        images: None,
        rewrites: Seq::empty(),
        waiting: None,
    }
}

/// Every image has its rewrite.
pub open spec fn render_finished(s: RenderState) -> bool {
    s.images is Some && s.rewrites.len() >= s.images->0.len()
}

/// One move of the rendering: the next line goes through the expander (an image
/// directive asks for its image instead); after the last line, the images of
/// the expanded Markdown are found; then the next image is kept when it is on
/// the web, and asked for otherwise.
pub open spec fn render_step(s: RenderState) -> RenderState {
    match s.images {
        None => if s.next_line < s.lines.len() {
            let line = s.lines[s.next_line];
            match image_request(s.expander, line) {
                Some(path) => RenderState { next_line: s.next_line + 1, waiting: Some(path), ..s },
                None => RenderState {
                    next_line: s.next_line + 1,
                    expander: expand_step(s.expander, line),
                    ..s
                },
            }
        } else {
            RenderState { images: Some(markdown_images(s.expander.processed)), ..s }
        },
        Some(dests) => if s.rewrites.len() < dests.len() {
            let dest = dests[s.rewrites.len() as int];
            if is_remote(dest) {
                RenderState { rewrites: s.rewrites.push(ImageRewriteView::Keep), ..s }
            } else {
                RenderState { waiting: Some(dest), ..s }
            }
        } else {
            s
        },
    }
}

/// The rendering moved on until it waits for a copy or is finished.
pub open spec fn render_advance(s: RenderState) -> RenderState
    decreases
            (if s.images is None {
                1int
            } else {
                0int
            }),
            (match s.images {
                None => s.lines.len() - s.next_line,
                Some(d) => d.len() - s.rewrites.len(),
            }),
{
    if s.waiting is Some || render_finished(s) {
        s
    } else {
        let t = render_step(s);
        if t.waiting is Some {
            t
        } else {
            render_advance(t)
        }
    }
}

/// The rendering after the awaited copy came back with `outcome`: an image
/// directive becomes its Markdown, an image of the Markdown gets its rewrite.
pub open spec fn render_supplied(s: RenderState, outcome: Result<Seq<char>, Seq<char>>) -> RenderState {
    match s.waiting {
        None => s,
        Some(path) => match s.images {
            None => RenderState {
                expander: ExpanderState {
                    processed: s.expander.processed + image_markdown(outcome),
                    ..s.expander
                },
                waiting: None,
                ..s
            },
            Some(_) => RenderState {
                rewrites: s.rewrites.push(rewrite_of(path, outcome)),
                waiting: None,
                ..s
            },
        },
    }
}

/// The HTML of a rendering: the expanded Markdown with its images rewritten.
pub open spec fn render_output(s: RenderState) -> Seq<char> {
    markdown_html(s.expander.processed, s.rewrites)
}

/// Renders a docstring to HTML. The caller asks for the next image to copy
/// (`next_copy`), copies it and hands back the outcome (`supply_copy`), until
/// no copy is asked for; then `finish` gives the HTML.
pub struct MarkdownRenderer {
    lines: Vec<String>,
    next_line: usize,
    expander: MacroExpander,
    images: Option<Vec<String>>,
    rewrites: Vec<ImageRewrite>,
    waiting: Option<String>,
}

impl View for MarkdownRenderer {
    type V = RenderState;

    closed spec fn view(&self) -> RenderState {
        RenderState {
            lines: string_views(self.lines@),
            next_line: self.next_line as int,
            expander: self.expander@,
            images: match self.images {
                None => None,
                Some(d) => Some(string_views(d@)),
            },
            rewrites: rewrite_views(self.rewrites@),
            waiting: match self.waiting {
                None => None,
                Some(p) => Some(p@),
            },
        }
    }
}

impl MarkdownRenderer {
    /// The rendering of `markdown`, before it starts.
    pub fn new(markdown: &str) -> (r: Self)
        requires
            utf8_len(markdown@) < usize::MAX,
            dedent_defined(markdown@),
        ensures
            r@ == initial_render(markdown@),
    {
        let source = prepare_markdown_source(markdown);
        let lines = text_lines(source.as_str());
        let r = MarkdownRenderer {
            lines,
            next_line: 0,
            expander: MacroExpander::new(),
            images: None,
            rewrites: Vec::new(),
            waiting: None,
        };
        assert(rewrite_views(r.rewrites@) =~= Seq::<ImageRewriteView>::empty());
        assert(r@ =~= initial_render(markdown@));
        r
    }

    /// Whether the rendering has reached the images of the expanded Markdown.
    pub fn in_images(&self) -> (r: bool)
        ensures
            r == self@.images is Some,
    {
        self.images.is_some()
    }

    /// One move of the rendering (see [`render_step`]).
    fn step(&mut self)
        requires
            old(self)@.waiting is None,
            !render_finished(old(self)@),
        ensures
            final(self)@ == render_step(old(self)@),
    {
        match &self.images {
            None => {
                if self.next_line < self.lines.len() {
                    let ghost line = self@.lines[self.next_line as int];
                    assert(self.lines@[self.next_line as int]@ == line);
                    match self.expander.feed_line(self.lines[self.next_line].as_str()) {
                        Some(path) => {
                            self.waiting = Some(path);
                        },
                        None => {},
                    }
                    self.next_line = self.next_line + 1;
                } else {
                    let dests = image_destinations(self.expander.processed.as_str());
                    self.images = Some(dests);
                }
            },
            Some(dests) => {
                let j = self.rewrites.len();
                assert(j < dests@.len());
                assert(dests@[j as int]@ == string_views(dests@)[j as int]);
                if is_remote_url(dests[j].as_str()) {
                    let ghost before = self.rewrites@;
                    self.rewrites.push(ImageRewrite::Keep);
                    assert(rewrite_views(self.rewrites@) =~= rewrite_views(before).push(
                        ImageRewriteView::Keep,
                    ));
                } else {
                    let path = dests[j].clone();
                    self.waiting = Some(path);
                }
            },
        }
        assert(self@ =~= render_step(old(self)@));
    }

    /// Moves the rendering on until it needs an image copied, and returns the
    /// path of that image; `None` when the rendering is finished.
    pub fn next_copy(&mut self) -> (r: Option<String>)
        ensures
            final(self)@ == render_advance(old(self)@),
            r is Some <==> final(self)@.waiting is Some,
            r matches Some(p) ==> p@ == final(self)@.waiting->0,
    {
        loop
            invariant
                render_advance(self@) == render_advance(old(self)@),
            ensures
                self@.waiting is Some || render_finished(self@),
                render_advance(self@) == render_advance(old(self)@),
            decreases
                    (if self@.images is None {
                        1int
                    } else {
                        0int
                    }),
                    (match self@.images {
                        None => self@.lines.len() - self@.next_line,
                        Some(d) => d.len() - self@.rewrites.len(),
                    }),
        {
            let done = match &self.images {
                None => false,
                Some(d) => self.rewrites.len() >= d.len(),
            };
            if self.waiting.is_some() || done {
                break ;
            }
            self.step();
            if self.waiting.is_some() {
                break ;
            }
        }
        assert(render_advance(self@) == self@);
        match &self.waiting {
            None => None,
            Some(p) => Some(p.clone()),
        }
    }

    /// Hands back the outcome of copying the image that was asked for: the
    /// path of the copy, or the message of the failure. Without a pending
    /// request nothing changes.
    pub fn supply_copy(&mut self, outcome: Result<String, String>)
        ensures
            final(self)@ == render_supplied(old(self)@, result_view(outcome)),
    {
        match &self.waiting {
            None => {
                return ;
            },
            Some(path) => {
                if self.images.is_none() {
                    self.expander.supply_image(outcome);
                } else {
                    let rw = image_rewrite(path.as_str(), outcome);
                    let ghost before = self.rewrites@;
                    self.rewrites.push(rw);
                    assert(rewrite_views(self.rewrites@) =~= rewrite_views(before).push(rw@));
                }
            },
        }
        self.waiting = None;
        assert(self@ =~= render_supplied(old(self)@, result_view(outcome)));
    }

    /// The HTML: the expanded Markdown, its images rewritten.
    pub fn finish(self) -> (r: String)
        ensures
            r@ == render_output(self@),
    {
        render_html(self.expander.processed.as_str(), &self.rewrites)
    }
}


// ---------------------------------------------------------------------------
// Laws
// ---------------------------------------------------------------------------

/// No line of `ls` is an image directive outside a code block.
pub open spec fn asks_no_image(ls: Seq<Seq<char>>) -> bool {
    forall|i: int|
        0 <= i < ls.len() ==> image_request(expand_lines(initial_expander(), ls, i), #[trigger] ls[i])
            is None
}

/// The Markdown that the directives of a docstring expand to, when none of
/// them is an image directive.
pub open spec fn expanded_markdown(markdown: Seq<char>) -> Seq<char> {
    let ls = lines(markdown_source(markdown));
    expand_lines(initial_expander(), ls, ls.len() as int).processed
}

/// Each image is kept as it is.
pub open spec fn all_kept(n: nat) -> Seq<ImageRewriteView> {
    Seq::new(n, |j: int| ImageRewriteView::Keep)
}

proof fn lemma_advance_lines(s: RenderState)
    requires
        s.images is None,
        s.waiting is None,
        s.rewrites == Seq::<ImageRewriteView>::empty(),
        0 <= s.next_line <= s.lines.len(),
        asks_no_image(s.lines),
        s.expander == expand_lines(initial_expander(), s.lines, s.next_line),
    ensures
        render_advance(s) == render_advance(
            RenderState {
                next_line: s.lines.len() as int,
                expander: expand_lines(initial_expander(), s.lines, s.lines.len() as int),
                images: Some(
                    markdown_images(
                        expand_lines(initial_expander(), s.lines, s.lines.len() as int).processed,
                    ),
                ),
                ..s
            },
        ),
    decreases s.lines.len() - s.next_line,
{
    let t = render_step(s);
    if s.next_line < s.lines.len() {
        assert(image_request(
            expand_lines(initial_expander(), s.lines, s.next_line),
            s.lines[s.next_line],
        ) is None);
        assert(t.expander == expand_lines(initial_expander(), s.lines, s.next_line + 1));
        lemma_advance_lines(t);
    } else {
        assert(t =~= RenderState {
            next_line: s.lines.len() as int,
            expander: expand_lines(initial_expander(), s.lines, s.lines.len() as int),
            images: Some(
                markdown_images(
                    expand_lines(initial_expander(), s.lines, s.lines.len() as int).processed,
                ),
            ),
            ..s
        });
    }
}

proof fn lemma_advance_images(s: RenderState)
    requires
        s.images is Some,
        s.waiting is None,
        s.rewrites.len() <= s.images->0.len(),
        s.rewrites == all_kept(s.rewrites.len()),
        forall|j: int| 0 <= j < s.images->0.len() ==> is_remote(#[trigger] s.images->0[j]),
    ensures
        render_advance(s) == (RenderState { rewrites: all_kept(s.images->0.len()), ..s }),
    decreases s.images->0.len() - s.rewrites.len(),
{
    let d = s.images->0;
    if s.rewrites.len() < d.len() {
        assert(is_remote(d[s.rewrites.len() as int]));
        let t = render_step(s);
        assert(t.rewrites =~= all_kept(s.rewrites.len() + 1));
        lemma_advance_images(t);
    } else {
        assert(s.rewrites =~= all_kept(d.len()));
        assert(s =~= RenderState { rewrites: all_kept(s.images->0.len()), ..s });
    }
}

/// A docstring that holds no image directive outside code blocks, and whose
/// Markdown holds no image but ones on the web, asks for no copy: the
/// rendering finishes at once, and its HTML depends on the docstring alone.
pub proof fn lemma_render_without_copies(markdown: Seq<char>)
    requires
        asks_no_image(lines(markdown_source(markdown))),
        forall|j: int|
            0 <= j < markdown_images(expanded_markdown(markdown)).len() ==> is_remote(
                #[trigger] markdown_images(expanded_markdown(markdown))[j],
            ),
    ensures
        render_advance(initial_render(markdown)).waiting is None,
        render_finished(render_advance(initial_render(markdown))),
        render_output(render_advance(initial_render(markdown))) == markdown_html(
            expanded_markdown(markdown),
            all_kept(markdown_images(expanded_markdown(markdown)).len()),
        ),
{
    let s = initial_render(markdown);
    let ls = s.lines;
    assert(s.expander == expand_lines(initial_expander(), ls, 0));
    lemma_advance_lines(s);
    let u = RenderState {
        next_line: ls.len() as int,
        expander: expand_lines(initial_expander(), ls, ls.len() as int),
        images: Some(markdown_images(expand_lines(initial_expander(), ls, ls.len() as int).processed)),
        ..s
    };
    assert(u.rewrites =~= all_kept(0));
    assert(u.images->0 == markdown_images(expanded_markdown(markdown)));
    lemma_advance_images(u);
}

/// The state after the lines `ls[0..n]`, none of which asks for an image.
pub open spec fn expand_lines(st: ExpanderState, ls: Seq<Seq<char>>, n: int) -> ExpanderState
    decreases n,
{
    if n <= 0 {
        st
    } else {
        expand_step(expand_lines(st, ls, n - 1), ls[n - 1])
    }
}

/// Text without directives comes through the expansion unchanged, each line
/// followed by a newline.
pub proof fn lemma_plain_text_passes_through(st: ExpanderState, ls: Seq<Seq<char>>, n: int)
    requires
        0 <= n <= ls.len(),
        !st.in_code,
        forall|i: int| 0 <= i < n ==> parse_doc_macro(#[trigger] ls[i]) is None,
    ensures
        !expand_lines(st, ls, n).in_code,
        expand_lines(st, ls, n).processed == st.processed + terminated(ls.take(n)),
    decreases n,
{
    if n > 0 {
        lemma_plain_text_passes_through(st, ls, n - 1);
        reveal_strlit("\n");
        assert(ls.take(n).drop_last() =~= ls.take(n - 1));
        assert(ls.take(n).last() == ls[n - 1]);
        assert(parse_doc_macro(ls[n - 1]) is None);
        assert("\n"@ =~= seq!['\n']);
        let prev = expand_lines(st, ls, n - 1);
        assert(expand_lines(st, ls, n).processed == prev.processed + ls[n - 1] + "\n"@);
        assert(st.processed + terminated(ls.take(n)) =~= st.processed + terminated(ls.take(n - 1))
            + ls[n - 1] + seq!['\n']);
    } else {
        assert(ls.take(0) =~= Seq::<Seq<char>>::empty());
    }
}

/// A reference to `m.s`, where the module part `m` holds no dot, links to the
/// symbol `s` (the whole rest of the target, dots included) on the page of `m`;
/// a target without a dot links to its own page.
pub proof fn lemma_doc_link_splits_at_first_dot(m: Seq<char>, s: Seq<char>)
    ensures
        !m.contains('.') ==> doc_link_html(m + "."@ + s) == "<a href=\""@ + m + ".html#fn."@ + s
            + "\" class=\"doc-internal-link\"><code>"@ + (m + "."@ + s) + "</code></a>"@,
        !m.contains('.') ==> doc_link_html(m) == "<a href=\""@ + m
            + ".html\" class=\"doc-internal-link\"><code>"@ + m + "</code></a>"@,
{
    reveal_strlit(".");
    if !m.contains('.') {
        let t = m + "."@ + s;
        lemma_index_of_from(t, 0, '.');
        let dot = index_of_from(t, 0, '.');
        assert(t[m.len() as int] == '.');
        if dot < m.len() {
            assert(t[dot] == m[dot]);
        }
        assert(dot == m.len());
        assert(t.take(dot) =~= m);
        assert(t.skip(dot + 1) =~= s);
        lemma_index_of_from(m, 0, '.');
        if index_of_from(m, 0, '.') < m.len() {
            assert(m.contains(m[index_of_from(m, 0, '.')]));
        }
    }
}

} // verus!
