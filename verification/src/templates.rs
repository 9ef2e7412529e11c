//! The theme's templates: compiling the four page templates with tera, the
//! `striptags` filter registered.
use vstd::prelude::*;

use tera::{Kwargs, State, Tera};

use crate::tags::striptags_text;

verus! {

#[verifier::external_type_specification]
#[verifier::external_body]
pub struct ExTera(tera::Tera);

#[verifier::external_type_specification]
#[verifier::external_body]
pub struct ExTeraError(tera::Error);

/// The templates added to a tera instance, as (name, source) pairs in the order
/// in which they were added.
pub uninterp spec fn tera_templates(t: tera::Tera) -> Seq<(Seq<char>, Seq<char>)>;

/// Whether `Tera::add_raw_template` accepts the last (name, source) pair of
/// `ts` on an instance made by [`new_tera`] that holds the pairs before it.
/// That instance has tera's builtin filters, tests and functions and the
/// `striptags` filter, and nothing else, so the outcome depends on `ts` alone.
pub uninterp spec fn templates_compile(ts: Seq<(Seq<char>, Seq<char>)>) -> bool;

/// Calls `tera::Tera::default()` and registers the `striptags` filter on it with
/// `Tera::register_filter`. Trusted: the instance holds no template.
#[verifier::external_body]
fn new_tera() -> (r: Tera)
    ensures
        tera_templates(r) == Seq::<(Seq<char>, Seq<char>)>::empty(),
{
    let mut tera = Tera::default();
    tera.register_filter("striptags", |value: &str, _: Kwargs, _: &State| striptags_text(value));
    tera
}

/// Calls `tera::Tera::add_raw_template(name, source)`. Trusted: it succeeds
/// exactly when `templates_compile` holds of the templates so far followed by
/// this one; on success the template is added, and on failure tera takes it
/// out again, so the templates are as before.
#[verifier::external_body]
fn add_template(tera: &mut Tera, name: &str, source: &str) -> (r: Result<(), tera::Error>)
    ensures
        r is Ok <==> templates_compile(tera_templates(*old(tera)).push((name@, source@))),
        r is Ok ==> tera_templates(*final(tera)) == tera_templates(*old(tera)).push(
            (name@, source@),
        ),
        r is Err ==> tera_templates(*final(tera)) == tera_templates(*old(tera)),
{
    tera.add_raw_template(name, source)
}

/// The theme's templates in the order in which they are loaded.
pub open spec fn theme_templates(
    sidebar: Seq<char>,
    index: Seq<char>,
    module: Seq<char>,
    document: Seq<char>,
) -> Seq<(Seq<char>, Seq<char>)> {
    seq![
        ("sidebar.html"@, sidebar),
        ("index.html"@, index),
        ("module.html"@, module),
        ("document.html"@, document),
    ]
}

/// The first `k` templates of `ts` load, one after the other.
pub open spec fn loads_upto(ts: Seq<(Seq<char>, Seq<char>)>, k: int) -> bool {
    forall|j: int| 1 <= j <= k ==> #[trigger] templates_compile(ts.take(j))
}

/// A template of the theme that tera refused.
pub struct TemplateError {
    /// The file name of the template, such as `module.html`.
    pub file: String,
    /// What tera reported.
    pub error: tera::Error,
}

/// Compiles the theme's templates from their sources, in the order sidebar,
/// index, module, document, with the `striptags` filter available to them.
/// Fails with the first template that tera refuses.
pub fn build_tera(sidebar: &str, index: &str, module: &str, document: &str) -> (r: Result<
    Tera,
    TemplateError,
>)
    ensures
        ({
            let ts = theme_templates(sidebar@, index@, module@, document@);
            &&& r is Ok <==> loads_upto(ts, 4)
            &&& r matches Ok(t) ==> tera_templates(t) == ts
            &&& r matches Err(e) ==> exists|k: int|
                0 <= k < 4 && loads_upto(ts, k) && !templates_compile(ts.take(k + 1))
                    && e.file@ == ts[k].0
        }),
{
    let ghost ts = theme_templates(sidebar@, index@, module@, document@);
    let files: Vec<(&str, &str)> = vec![
        ("sidebar.html", sidebar),
        ("index.html", index),
        ("module.html", module),
        ("document.html", document),
    ];
    assert(forall|k: int| 0 <= k < 4 ==> (#[trigger] files@[k]).0@ == ts[k].0 && files@[k].1@ == ts[k].1);
    let mut tera = new_tera();
    assert(ts.take(0) =~= Seq::<(Seq<char>, Seq<char>)>::empty());
    let mut i: usize = 0;
    while i < 4
        invariant
            i <= 4,
            files@.len() == 4,
            ts.len() == 4,
            ts == theme_templates(sidebar@, index@, module@, document@),
            forall|k: int| 0 <= k < 4 ==> (#[trigger] files@[k]).0@ == ts[k].0 && files@[k].1@ == ts[k].1,
            tera_templates(tera) == ts.take(i as int),
            loads_upto(ts, i as int),
        decreases 4 - i,
    {
        let (name, source) = files[i];
        assert(ts.take(i as int).push((name@, source@)) =~= ts.take(i + 1));
        match add_template(&mut tera, name, source) {
            Ok(()) => {},
            Err(error) => {
                let mut file = String::new();
                file.push_str(name);
                return Err(TemplateError { file, error });
            },
        }
        i += 1;
    }
    assert(ts.take(4) =~= ts);
    Ok(tera)
}

} // verus!
