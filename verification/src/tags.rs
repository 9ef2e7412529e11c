//! The `striptags` template filter: HTML tags removed from a text with the
//! regular expression `<[^>]*>`.
use vstd::prelude::*;

use regex::{Error as RegexError, Regex};

use crate::text::index_of_from;

verus! {

#[verifier::external_type_specification]
#[verifier::external_body]
pub struct ExRegex(regex::Regex);

#[verifier::external_type_specification]
#[verifier::external_body]
pub struct ExRegexError(regex::Error);

/// Whether `regex::Regex::new` accepts `pattern`.
pub uninterp spec fn regex_compiles(pattern: Seq<char>) -> bool;

/// The expression that matches one HTML tag.
pub open spec fn tag_pattern() -> Seq<char> {
    "<[^>]*>"@
}

/// `s[i..]` with every match of `<[^>]*>` removed, matches taken leftmost
/// first and without overlap: a `<` opens a match that ends at the first `>`
/// after it; a `<` with no `>` after it is kept, like every character outside a match.
pub open spec fn strip_tags_from(s: Seq<char>, i: int) -> Seq<char>
    decreases s.len() - i,
{
    if i < 0 || i >= s.len() {
        Seq::empty()
    } else if s[i] == '<' && index_of_from(s, i + 1, '>') < s.len() {
        proof {
            crate::text::lemma_index_of_from(s, i + 1, '>');
        }
        strip_tags_from(s, index_of_from(s, i + 1, '>') + 1)
    } else {
        seq![s[i]] + strip_tags_from(s, i + 1)
    }
}

/// `s` without its HTML tags.
pub open spec fn without_tags(s: Seq<char>) -> Seq<char> {
    strip_tags_from(s, 0)
}

/// A compiled regular expression together with the pattern it was compiled
/// from. Only `compile_regex` makes one.
pub struct CompiledRegex {
    source: String,
    regex: Regex,
}

impl CompiledRegex {
    /// The pattern the expression was compiled from.
    pub closed spec fn source(&self) -> Seq<char> {
        self.source@
    }
}

/// Calls `regex::Regex::new(pattern)`. Trusted: the call succeeds exactly when
/// `regex_compiles(pattern)`, a name for what the regex crate decides from the
/// pattern alone; the compiled expression is kept with a copy of its pattern.
/// The tag expression `<[^>]*>` (a literal, a negated class under `*`, a
/// literal) is valid in the syntax that the crate documents and far below its
/// default size limit, so it compiles.
#[verifier::external_body]
fn compile_regex(pattern: &str) -> (r: Result<CompiledRegex, RegexError>)
    ensures
        r is Ok <==> regex_compiles(pattern@),
        pattern@ == tag_pattern() ==> r is Ok,
        r matches Ok(c) ==> c.source() == pattern@,
{
    match Regex::new(pattern) {
        Ok(regex) => Ok(CompiledRegex { source: pattern.to_string(), regex }),
        Err(e) => Err(e),
    }
}

/// Calls `regex::Regex::replace_all(text, replacement)` for the tag expression
/// with an empty replacement. Trusted: as the regex crate documents
/// `replace_all` (every non-overlapping match replaced, leftmost-first
/// matching), the result is `text` without the matches of `<[^>]*>`, where
/// `[^>]` matches any character but `>`, line breaks included.
#[verifier::external_body]
fn replace_tag_matches(re: &CompiledRegex, text: &str, replacement: &str) -> (r: String)
    requires
        re.source() == tag_pattern(),
        replacement@ == Seq::<char>::empty(),
    ensures
        r@ == without_tags(text@),
{
    re.regex.replace_all(text, replacement).into_owned()
}

/// Why `striptags` failed.
pub enum StripTagsError {
    /// The tag expression did not compile.
    InvalidPattern(RegexError),
}

/// Removes the HTML tags from `value`, as the regular expression `<[^>]*>`
/// finds them. The error is that of an expression that does not compile, which
/// the tag expression always does, so the result is always `Ok`.
pub fn striptags(value: &str) -> (r: Result<String, StripTagsError>)
    ensures
        r is Ok,
        r matches Ok(s) ==> s@ == without_tags(value@),
{
    match compile_regex("<[^>]*>") {
        Ok(re) => {
            let empty = "";
            proof {
                reveal_strlit("");
                assert(empty@ =~= Seq::<char>::empty());
            }
            Ok(replace_tag_matches(&re, value, empty))
        },
        Err(e) => Err(StripTagsError::InvalidPattern(e)),
    }
}

/// The templates' `striptags` filter: `value` without its HTML tags.
pub fn striptags_text(value: &str) -> (r: String)
    ensures
        r@ == without_tags(value@),
{
    match striptags(value) {
        Ok(s) => s,
        Err(_) => String::new(),
    }
}

/// No `<` of `t` has a `>` after it: `t` holds no tag.
pub open spec fn has_no_tag(t: Seq<char>) -> bool {
    forall|i: int, j: int| 0 <= i < j < t.len() ==> !(#[trigger] t[i] == '<' && #[trigger] t[j] == '>')
}

proof fn lemma_no_close_after(s: Seq<char>, i: int)
    requires
        0 <= i <= s.len(),
        index_of_from(s, i, '>') == s.len(),
    ensures
        forall|k: int| 0 <= k < strip_tags_from(s, i).len() ==> #[trigger] strip_tags_from(s, i)[k] != '>',
    decreases s.len() - i,
{
    crate::text::lemma_index_of_from(s, i, '>');
    if i < s.len() {
        assert(s[i] != '>');
        assert(index_of_from(s, i + 1, '>') == s.len());
        lemma_no_close_after(s, i + 1);
        let rest = strip_tags_from(s, i + 1);
        assert(strip_tags_from(s, i) == seq![s[i]] + rest);
        assert forall|k: int| 0 <= k < strip_tags_from(s, i).len() implies #[trigger] strip_tags_from(s, i)[k] != '>' by {
            if k > 0 {
                assert(strip_tags_from(s, i)[k] == rest[k - 1]);
            }
        }
    }
}

proof fn lemma_strip_has_no_tag(s: Seq<char>, i: int)
    requires
        0 <= i <= s.len(),
    ensures
        has_no_tag(strip_tags_from(s, i)),
    decreases s.len() - i,
{
    if i < s.len() {
        crate::text::lemma_index_of_from(s, i + 1, '>');
        if s[i] == '<' && index_of_from(s, i + 1, '>') < s.len() {
            lemma_strip_has_no_tag(s, index_of_from(s, i + 1, '>') + 1);
        } else {
            lemma_strip_has_no_tag(s, i + 1);
            let rest = strip_tags_from(s, i + 1);
            let r = strip_tags_from(s, i);
            assert(r == seq![s[i]] + rest);
            if s[i] == '<' {
                lemma_no_close_after(s, i + 1);
            }
            assert forall|a: int, b: int| 0 <= a < b < r.len() implies !(#[trigger] r[a] == '<'
                && #[trigger] r[b] == '>') by {
                assert(r[b] == rest[b - 1]);
                if a > 0 {
                    assert(r[a] == rest[a - 1]);
                }
            }
        }
    }
}

proof fn lemma_strip_without_tag(t: Seq<char>, i: int)
    requires
        0 <= i <= t.len(),
        has_no_tag(t),
    ensures
        strip_tags_from(t, i) == t.skip(i),
    decreases t.len() - i,
{
    if i < t.len() {
        crate::text::lemma_index_of_from(t, i + 1, '>');
        if t[i] == '<' && index_of_from(t, i + 1, '>') < t.len() {
            assert(t[index_of_from(t, i + 1, '>')] == '>');
            assert(false);
        }
        lemma_strip_without_tag(t, i + 1);
        assert(seq![t[i]] + t.skip(i + 1) =~= t.skip(i));
    } else {
        assert(t.skip(i) =~= Seq::<char>::empty());
    }
}

/// Stripping tags leaves no tag behind, and stripping again changes nothing.
pub proof fn lemma_striptags_complete(s: Seq<char>)
    ensures
        has_no_tag(without_tags(s)),
        without_tags(without_tags(s)) == without_tags(s),
{
    lemma_strip_has_no_tag(s, 0);
    lemma_strip_without_tag(without_tags(s), 0);
    assert(without_tags(s).skip(0) =~= without_tags(s));
}

} // verus!
