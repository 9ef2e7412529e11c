//! Docstring clean-up: removing the indentation that Python source gives to
//! docstrings, and taking out the `#pd-z-index:` directive.
use vstd::prelude::*;

use crate::text::{
    append_all, append_range, char_utf8_width, chars_of, copy_range, index_of_from, is_blank,
    is_blank_line, is_ws, join_lines, join_with, lemma_lines_join, lemma_blank_iff, lemma_index_of_from,
    lemma_lines_chars, lemma_lines_of_terminated, lemma_run_from_bounds, lemma_utf8_len_concat,
    lemma_utf8_len_subrange, lemma_utf8_len_take_mono,
    lemma_utf8_len_take_step, lines, lines_from, parse_i32, parse_i32_range, run_end, run_from,
    split_lines, starts_with, starts_with_at, string_of, terminated, trim, trim_range, trim_start,
    trim_start_matches, trim_start_matches_from, utf8_len, utf8_len_of, views, TrimSet,
};

verus! {

// ---------------------------------------------------------------------------
// Indentation
// ---------------------------------------------------------------------------

/// The number of leading whitespace characters of a line.
pub open spec fn lead_ws(l: Seq<char>) -> nat {
    run_from(l, 0, TrimSet::Whitespace)
}

/// The indentation of a line, in UTF-8 bytes (`line.len() - line.trim_start().len()`).
pub open spec fn line_indent(l: Seq<char>) -> nat {
    utf8_len(l.take(lead_ws(l) as int))
}

/// The least indentation among the non-blank lines `ls[1..n]`, if there is one.
pub open spec fn min_indent_upto(ls: Seq<Seq<char>>, n: int) -> Option<nat>
    decreases n,
{
    if n <= 1 {
        None
    } else {
        let rest = min_indent_upto(ls, n - 1);
        let l = ls[n - 1];
        if is_blank(l) {
            rest
        } else {
            match rest {
                None => Some(line_indent(l)),
                Some(m) => Some(
                    if line_indent(l) < m {
                        line_indent(l)
                    } else {
                        m
                    },
                ),
            }
        }
    }
}

/// The indentation that is removed from every line but the first: the least
/// indentation of the later non-blank lines, or 0 when there are none.
pub open spec fn dedent_width(ls: Seq<Seq<char>>) -> nat {
    match min_indent_upto(ls, ls.len() as int) {
        Some(m) => m,
        None => 0,
    }
}

/// Some prefix of `l` is exactly `m` bytes long in UTF-8.
pub open spec fn has_boundary(l: Seq<char>, m: nat) -> bool {
    exists|k: int| 0 <= k <= l.len() && #[trigger] utf8_len(l.take(k)) == m
}

/// The number of characters that make up the first `m` bytes of `l`.
pub open spec fn boundary(l: Seq<char>, m: nat) -> int {
    choose|k: int| 0 <= k <= l.len() && #[trigger] utf8_len(l.take(k)) == m
}

/// A later non-blank line with its first `m` bytes removed (`&line[m..]`), or, when
/// it is shorter than `m` bytes, with its leading whitespace removed.
pub open spec fn strip_indent(l: Seq<char>, m: nat) -> Seq<char> {
    if utf8_len(l) >= m {
        l.skip(boundary(l, m))
    } else {
        trim_start(l)
    }
}

/// Line `i` of a docstring after clean-up: the first line as it is, blank lines
/// emptied, the others dedented by `m` bytes.
pub open spec fn cleaned_line(ls: Seq<Seq<char>>, i: int, m: nat) -> Seq<char> {
    if i == 0 {
        ls[0]
    } else if is_blank(ls[i]) {
        Seq::empty()
    } else {
        strip_indent(ls[i], m)
    }
}

pub open spec fn cleaned_lines(ls: Seq<Seq<char>>, m: nat) -> Seq<Seq<char>> {
    Seq::new(ls.len(), |i: int| cleaned_line(ls, i, m))
}

/// The cleaned docstring: every cleaned line followed by a newline.
pub open spec fn cleaned_docstring(doc: Seq<char>) -> Seq<char> {
    let ls = lines(doc);
    terminated(cleaned_lines(ls, dedent_width(ls)))
}

/// Cutting the common indentation off every later non-blank line falls on a
/// character boundary, so the clean-up does not fail.
pub open spec fn dedent_defined(doc: Seq<char>) -> bool {
    let ls = lines(doc);
    forall|i: int|
        1 <= i < ls.len() && !is_blank(#[trigger] ls[i]) && utf8_len(ls[i]) >= dedent_width(ls)
            ==> has_boundary(ls[i], dedent_width(ls))
}

/// Every line of a text is at most as wide as the text.
pub proof fn lemma_lines_no_wider(s: Seq<char>, start: int)
    requires
        0 <= start,
    ensures
        forall|k: int|
            0 <= k < lines_from(s, start).len() ==> utf8_len(#[trigger] lines_from(s, start)[k])
                <= utf8_len(s),
    decreases s.len() - start,
{
    if start < s.len() {
        let e = index_of_from(s, start, '\n');
        lemma_index_of_from(s, start, '\n');
        lemma_utf8_len_subrange(s, start, e);
        if e < s.len() {
            lemma_lines_no_wider(s, e + 1);
            let l = s.subrange(start, e);
            if l.len() > 0 && l.last() == '\r' {
                lemma_utf8_len_subrange(l, 0, l.len() - 1);
                assert(l.drop_last() =~= l.subrange(0, l.len() - 1));
            }
            let rest = lines_from(s, e + 1);
            assert forall|k: int|
                0 <= k < lines_from(s, start).len() implies utf8_len(
                #[trigger] lines_from(s, start)[k],
            ) <= utf8_len(s) by {
                if k > 0 {
                    assert(lines_from(s, start)[k] == rest[k - 1]);
                }
            }
        }
    }
}

/// Each width is at least one byte, so a byte boundary names one position.
proof fn lemma_boundary_unique(l: Seq<char>, m: nat, k: int)
    requires
        0 <= k <= l.len(),
        utf8_len(l.take(k)) == m,
    ensures
        boundary(l, m) == k,
{
    let j = boundary(l, m);
    assert(has_boundary(l, m));
    if j < k {
        lemma_utf8_len_take_mono(l, j, k);
    } else if k < j {
        lemma_utf8_len_take_mono(l, k, j);
    }
}

/// The width of the leading whitespace of `l`, when `l` fits in a `usize`.
fn indent_of(l: &[char]) -> (r: (usize, usize))
    requires
        utf8_len(l@) <= usize::MAX,
    ensures
        r.0 == lead_ws(l@),
        r.1 == line_indent(l@),
        r.0 <= l@.len(),
{
    let k = run_end(l, 0, TrimSet::Whitespace);
    let mut acc: usize = 0;
    let mut i: usize = 0;
    while i < k
        invariant
            i <= k <= l@.len(),
            acc == utf8_len(l@.take(i as int)),
            utf8_len(l@) <= usize::MAX,
        decreases k - i,
    {
        proof {
            lemma_utf8_len_take_step(l@, i as int);
            lemma_utf8_len_take_mono(l@, i + 1, l@.len() as int);
            assert(l@.take(l@.len() as int) =~= l@);
        }
        acc = acc + char_utf8_width(l[i]);
        i += 1;
    }
    (k, acc)
}

/// The number of characters that make up the first `m` bytes of `l`.
fn boundary_of(l: &[char], m: usize) -> (k: usize)
    requires
        has_boundary(l@, m as nat),
    ensures
        k == boundary(l@, m as nat),
        k <= l@.len(),
{
    let ghost target = boundary(l@, m as nat);
    let mut acc: usize = 0;
    let mut i: usize = 0;
    while acc < m
        invariant
            0 <= target <= l@.len(),
            utf8_len(l@.take(target)) == m,
            i <= target,
            acc == utf8_len(l@.take(i as int)),
            acc <= m,
        decreases target - i,
    {
        proof {
            if i == target {
                assert(false);
            }
            lemma_utf8_len_take_step(l@, i as int);
            lemma_utf8_len_take_mono(l@, i + 1, target);
        }
        acc = acc + char_utf8_width(l[i]);
        i += 1;
    }
    proof {
        if i < target {
            lemma_utf8_len_take_mono(l@, i as int, target);
        }
        lemma_boundary_unique(l@, m as nat, i as int);
    }
    i
}

/// The dedent width of the lines `ls` (see [`dedent_width`]), when each of them
/// fits in a `usize`.
fn dedent_width_of(ls: &Vec<Vec<char>>) -> (width: usize)
    requires
        forall|k: int| 0 <= k < ls@.len() ==> utf8_len(#[trigger] ls@[k]@) < usize::MAX,
    ensures
        width == dedent_width(views(ls@)),
{
    let ghost lv = views(ls@);
    let n = ls.len();
    let mut min_indent: usize = usize::MAX;
    let mut i: usize = 1;
    while i < n
        invariant
            1 <= i && (i <= n || i == 1),
            n == ls@.len(),
            lv == views(ls@),
            forall|k: int| 0 <= k < ls@.len() ==> utf8_len(#[trigger] ls@[k]@) < usize::MAX,
            match min_indent_upto(lv, i as int) {
                None => min_indent == usize::MAX,
                Some(m) => min_indent == m && m < usize::MAX,
            },
        decreases n - i,
    {
        let line = &ls[i];
        assert(lv[i as int] == line@);
        if !is_blank_line(line) {
            let (_, ind) = indent_of(line);
            proof {
                lemma_utf8_len_subrange(line@, 0, lead_ws(line@) as int);
                assert(line@.subrange(0, lead_ws(line@) as int) =~= line@.take(
                    lead_ws(line@) as int,
                ));
            }
            if ind < min_indent {
                min_indent = ind;
            }
        }
        i += 1;
    }
    assert(lv.len() == n);
    proof {
        if n == 0 {
            assert(min_indent_upto(lv, 0) == min_indent_upto(lv, 1));
        } else {
            assert(i == n);
        }
    }
    if min_indent == usize::MAX {
        0
    } else {
        min_indent
    }
}

/// Strips the indentation that Python gives to docstrings.
///
/// The first line stays as it is. Every later line that is not blank loses the
/// least indentation found among those lines, counted in UTF-8 bytes; blank
/// lines become empty. Each resulting line ends with a newline.
pub fn clean_docstring(docstring: &str) -> (r: String)
    requires
        utf8_len(docstring@) < usize::MAX,
        dedent_defined(docstring@),
    ensures
        r@ == cleaned_docstring(docstring@),
{
    let chars = chars_of(docstring);
    let ls = split_lines(&chars);
    let ghost lv = views(ls@);
    proof {
        lemma_lines_no_wider(chars@, 0);
    }
    assert(forall|k: int| 0 <= k < ls@.len() ==> #[trigger] ls@[k]@ == lv[k]);
    assert(forall|k: int| 0 <= k < ls@.len() ==> utf8_len(#[trigger] ls@[k]@) < usize::MAX) by {
        assert forall|k: int| 0 <= k < ls@.len() implies utf8_len(#[trigger] ls@[k]@)
            < usize::MAX by {
            assert(ls@[k]@ == lines(chars@)[k]);
        }
    }
    let n = ls.len();
    let width = dedent_width_of(&ls);
    assert(width == dedent_width(lv));
    let ghost cl = cleaned_lines(lv, width as nat);
    let mut out: Vec<char> = Vec::new();
    let mut i: usize = 0;
    while i < n
        invariant
            i <= n,
            n == ls@.len(),
            lv == views(ls@),
            lv == lines(docstring@),
            width == dedent_width(lv),
            cl == cleaned_lines(lv, width as nat),
            dedent_defined(docstring@),
            forall|k: int| 0 <= k < ls@.len() ==> utf8_len(#[trigger] ls@[k]@) < usize::MAX,
            out@ == terminated(cl.take(i as int)),
        decreases n - i,
    {
        let line = &ls[i];
        assert(lv[i as int] == line@);
        let ghost before = out@;
        if i == 0 {
            append_all(&mut out, line);
        } else if is_blank_line(line) {
        } else {
            let len = utf8_len_of(line);
            if len >= width {
                assert(has_boundary(lv[i as int], width as nat));
                let k = boundary_of(line, width);
                append_range(&mut out, line, k, line.len());
                assert(line@.subrange(k as int, line@.len() as int) =~= line@.skip(k as int));
            } else {
                let t = run_end(line, 0, TrimSet::Whitespace);
                append_range(&mut out, line, t, line.len());
                assert(line@.subrange(t as int, line@.len() as int) =~= line@.skip(t as int));
            }
        }
        out.push('\n');
        assert(cl.take(i + 1).drop_last() =~= cl.take(i as int));
        assert(out@ =~= before + cl[i as int] + seq!['\n']);
        i += 1;
    }
    assert(cl.take(n as int) =~= cl);
    string_of(&out)
}

/// Whether [`clean_docstring`] can dedent `docstring` without cutting a character.
pub fn docstring_dedent_defined(docstring: &str) -> (r: bool)
    requires
        utf8_len(docstring@) < usize::MAX,
    ensures
        r == dedent_defined(docstring@),
{
    let chars = chars_of(docstring);
    let ls = split_lines(&chars);
    let ghost lv = views(ls@);
    proof {
        lemma_lines_no_wider(chars@, 0);
    }
    assert(forall|k: int| 0 <= k < ls@.len() ==> utf8_len(#[trigger] ls@[k]@) < usize::MAX) by {
        assert forall|k: int| 0 <= k < ls@.len() implies utf8_len(#[trigger] ls@[k]@)
            < usize::MAX by {
            assert(ls@[k]@ == lines(chars@)[k]);
        }
    }
    let n = ls.len();
    let width = dedent_width_of(&ls);
    assert(width == dedent_width(lv));
    let mut i: usize = 1;
    while i < n
        invariant
            1 <= i,
            n == ls@.len(),
            lv == views(ls@),
            lv == lines(docstring@),
            width == dedent_width(lv),
            forall|k: int| 0 <= k < ls@.len() ==> utf8_len(#[trigger] ls@[k]@) < usize::MAX,
            forall|j: int|
                1 <= j < i && j < n && !is_blank(#[trigger] lv[j]) && utf8_len(lv[j]) >= width
                    ==> has_boundary(lv[j], width as nat),
        decreases n - i,
    {
        let line = &ls[i];
        assert(lv[i as int] == line@);
        if !is_blank_line(line) && utf8_len_of(line) >= width {
            if !line_has_boundary(line, width) {
                assert(!is_blank(lv[i as int]) && utf8_len(lv[i as int]) >= dedent_width(lv));
                assert(!has_boundary(lv[i as int], dedent_width(lv)));
                return false;
            }
        }
        i += 1;
    }
    true
}

/// Whether some prefix of `l` is exactly `m` bytes long.
fn line_has_boundary(l: &[char], m: usize) -> (r: bool)
    requires
        utf8_len(l@) <= usize::MAX,
    ensures
        r == has_boundary(l@, m as nat),
{
    let mut acc: usize = 0;
    let mut i: usize = 0;
    while i < l.len() && acc < m
        invariant
            i <= l@.len(),
            acc == utf8_len(l@.take(i as int)),
            utf8_len(l@) <= usize::MAX,
            forall|j: int| 0 <= j < i ==> #[trigger] utf8_len(l@.take(j)) < m,
        decreases l@.len() - i,
    {
        proof {
            lemma_utf8_len_take_step(l@, i as int);
            lemma_utf8_len_take_mono(l@, i + 1, l@.len() as int);
            assert(l@.take(l@.len() as int) =~= l@);
        }
        acc = acc + char_utf8_width(l[i]);
        i += 1;
    }
    if acc == m {
        return true;
    }
    proof {
        assert forall|k: int| 0 <= k <= l@.len() implies #[trigger] utf8_len(l@.take(k))
            != m by {
            if k < i {
            } else if k > i {
                lemma_utf8_len_take_mono(l@, i as int, k);
            }
        }
    }
    false
}

// ---------------------------------------------------------------------------
// The z-index directive
// ---------------------------------------------------------------------------

/// The directive that orders a module in the navigation.
pub open spec fn z_marker() -> Seq<char> {
    "#pd-z-index:"@
}

/// A line that, trimmed, starts with `#pd-z-index:`.
pub open spec fn is_z_directive(l: Seq<char>) -> bool {
    starts_with(trim(l), z_marker())
}

/// The number a directive line carries: what follows the markers, trimmed and
/// parsed as an `i32`.
pub open spec fn z_directive_value(l: Seq<char>) -> Option<i32> {
    parse_i32(trim(trim_start_matches(trim(l), z_marker())))
}

/// The z-index set by `ls[0..n]`: the value of the last directive whose number
/// parses, or `i32::MAX` when there is none.
pub open spec fn z_index_of(ls: Seq<Seq<char>>, n: int) -> i32
    decreases n,
{
    if n <= 0 {
        i32::MAX
    } else if is_z_directive(ls[n - 1]) && z_directive_value(ls[n - 1]) is Some {
        z_directive_value(ls[n - 1])->0
    } else {
        z_index_of(ls, n - 1)
    }
}

/// The lines of `ls[0..n]` that are not directives, in order.
pub open spec fn non_directive_lines(ls: Seq<Seq<char>>, n: int) -> Seq<Seq<char>>
    decreases n,
{
    if n <= 0 {
        Seq::empty()
    } else if is_z_directive(ls[n - 1]) {
        non_directive_lines(ls, n - 1)
    } else {
        non_directive_lines(ls, n - 1).push(ls[n - 1])
    }
}

/// The docstring without its directive lines, joined by newlines.
pub open spec fn without_z_directives(doc: Seq<char>) -> Seq<char> {
    let ls = lines(doc);
    join_with(non_directive_lines(ls, ls.len() as int), "\n"@)
}

/// Reads a directive line: whether it is one, and the number it carries.
fn read_directive(line: &[char], marker: &[char]) -> (r: (bool, Option<i32>))
    requires
        marker@ == z_marker(),
    ensures
        r.0 == is_z_directive(line@),
        r.0 ==> r.1 == z_directive_value(line@),
{
    proof {
        reveal_strlit("#pd-z-index:");
    }
    let (a, b) = trim_range(line, TrimSet::Whitespace);
    let trimmed = copy_range(line, a, b);
    if !starts_with_at(&trimmed, 0, marker) {
        assert(trimmed@.skip(0) =~= trimmed@);
        return (false, None);
    }
    assert(trimmed@.skip(0) =~= trimmed@);
    let k = trim_start_matches_from(&trimmed, 0, marker);
    let rest = copy_range(&trimmed, k, trimmed.len());
    assert(rest@ =~= trimmed@.skip(k as int));
    let (c, d) = trim_range(&rest, TrimSet::Whitespace);
    (true, parse_i32_range(&rest, c, d))
}

/// Takes the `#pd-z-index:` directives out of a docstring.
///
/// Returns the z-index that the last directive with a valid `i32` sets
/// (`i32::MAX` when none does) and the remaining lines joined by newlines.
/// A directive line is removed even when its number does not parse.
pub fn extract_z_index_and_clean(docstring: &str) -> (r: (i32, String))
    ensures
        r.0 == z_index_of(lines(docstring@), lines(docstring@).len() as int),
        r.1@ == without_z_directives(docstring@),
{
    let marker = chars_of("#pd-z-index:");
    let chars = chars_of(docstring);
    let ls = split_lines(&chars);
    let ghost lv = views(ls@);
    let mut z_index: i32 = i32::MAX;
    let mut kept: Vec<Vec<char>> = Vec::new();
    let n = ls.len();
    let mut i: usize = 0;
    while i < n
        invariant
            i <= n,
            n == ls@.len(),
            lv == views(ls@),
            marker@ == z_marker(),
            z_index == z_index_of(lv, i as int),
            views(kept@) == non_directive_lines(lv, i as int),
        decreases n - i,
    {
        let line = &ls[i];
        assert(lv[i as int] == line@);
        let (is_directive, value) = read_directive(line, &marker);
        if is_directive {
            match value {
                Some(v) => {
                    z_index = v;
                },
                None => {},
            }
        } else {
            let ghost before = kept@;
            kept.push(copy_range(line, 0, line.len()));
            assert(line@.subrange(0, line@.len() as int) =~= line@);
            assert(views(kept@) =~= views(before).push(line@));
        }
        i += 1;
    }
    let newline = chars_of("\n");
    let joined = join_lines(&kept, &newline);
    (z_index, string_of(&joined))
}

// ---------------------------------------------------------------------------
// Laws
// ---------------------------------------------------------------------------

proof fn lemma_min_indent(ls: Seq<Seq<char>>, n: int)
    requires
        0 <= n <= ls.len(),
    ensures
        min_indent_upto(ls, n) matches Some(m) ==> {
            &&& forall|j: int|
                1 <= j < n && !is_blank(#[trigger] ls[j]) ==> m <= line_indent(ls[j])
            &&& exists|j: int| 1 <= j < n && !is_blank(#[trigger] ls[j]) && line_indent(ls[j]) == m
        },
        min_indent_upto(ls, n) is None ==> forall|j: int| 1 <= j < n ==> is_blank(#[trigger] ls[j]),
    decreases n,
{
    if n > 1 {
        lemma_min_indent(ls, n - 1);
    }
}

/// In a non-blank line indented at least `m` bytes, the first `m` bytes are
/// whitespace and end before its first other character.
proof fn lemma_boundary_in_indent(l: Seq<char>, m: nat)
    requires
        !is_blank(l),
        m <= line_indent(l),
    ensures
        utf8_len(l) >= m,
        has_boundary(l, m) ==> 0 <= boundary(l, m) <= lead_ws(l),
        m == line_indent(l) ==> has_boundary(l, m) && boundary(l, m) == lead_ws(l),
{
    let set = TrimSet::Whitespace;
    lemma_run_from_bounds(l, 0, set);
    let lead = lead_ws(l) as int;
    lemma_utf8_len_subrange(l, 0, lead);
    assert(l.subrange(0, lead) =~= l.take(lead));
    if has_boundary(l, m) {
        let b = boundary(l, m);
        if b > lead {
            lemma_utf8_len_take_mono(l, lead, b);
        }
    }
    if m == line_indent(l) {
        assert(utf8_len(l.take(lead)) == m);
        lemma_boundary_unique(l, m, lead);
    }
}

/// The run of whitespace from `i` in `s.skip(k)` is the run from `i + k` in `s`.
proof fn lemma_run_from_skip(s: Seq<char>, k: int, i: int)
    requires
        0 <= k <= s.len(),
        0 <= i,
    ensures
        run_from(s.skip(k), i, TrimSet::Whitespace) == run_from(s, i + k, TrimSet::Whitespace),
    decreases s.len() - k - i,
{
    if i < s.len() - k {
        assert(s.skip(k)[i] == s[i + k]);
        lemma_run_from_skip(s, k, i + 1);
    }
}

/// A run of whitespace from `i` passes over whitespace up to `k`.
proof fn lemma_run_from_over(s: Seq<char>, i: int, k: int)
    requires
        0 <= i <= k <= s.len(),
        forall|j: int| i <= j < k ==> is_ws(#[trigger] s[j]),
    ensures
        run_from(s, i, TrimSet::Whitespace) == (k - i) + run_from(s, k, TrimSet::Whitespace),
    decreases k - i,
{
    if i < k {
        assert(is_ws(s[i]));
        lemma_run_from_over(s, i + 1, k);
    }
}

/// Taking `k` characters of its leading whitespace off a non-blank line leaves
/// a non-blank line whose indentation is narrower by their width.
proof fn lemma_skip_in_indent(l: Seq<char>, k: int)
    requires
        0 <= k <= lead_ws(l),
        !is_blank(l),
    ensures
        lead_ws(l.skip(k)) == lead_ws(l) - k,
        !is_blank(l.skip(k)),
        line_indent(l.skip(k)) + utf8_len(l.take(k)) == line_indent(l),
{
    let set = TrimSet::Whitespace;
    lemma_run_from_bounds(l, 0, set);
    lemma_blank_iff(l);
    let lead = lead_ws(l) as int;
    lemma_run_from_over(l, 0, k);
    lemma_run_from_skip(l, k, 0);
    lemma_blank_iff(l.skip(k));
    assert(l.take(lead) =~= l.take(k) + l.skip(k).take(lead - k));
    lemma_utf8_len_concat(l.take(k), l.skip(k).take(lead - k));
}

/// Dedenting by `w` lowers the least indentation of the later non-blank lines
/// by `w`, when each of them is indented at least `w`.
proof fn lemma_min_indent_shift(ls: Seq<Seq<char>>, cl: Seq<Seq<char>>, w: nat, n: int)
    requires
        0 <= n <= ls.len(),
        cl.len() == ls.len(),
        forall|i: int| 1 <= i < ls.len() ==> (is_blank(#[trigger] cl[i]) <==> is_blank(ls[i])),
        forall|i: int|
            1 <= i < ls.len() && !is_blank(#[trigger] ls[i]) ==> line_indent(ls[i]) >= w
                && line_indent(cl[i]) + w == line_indent(ls[i]),
    ensures
        match min_indent_upto(ls, n) {
            Some(m) => m >= w && min_indent_upto(cl, n) == Some((m - w) as nat),
            None => min_indent_upto(cl, n) is None,
        },
    decreases n,
{
    if n > 1 {
        lemma_min_indent_shift(ls, cl, w, n - 1);
        assert(is_blank(cl[n - 1]) <==> is_blank(ls[n - 1]));
    }
}

/// Cleaning a docstring a second time changes nothing: the cleaned text can be
/// cleaned again, and comes out as it went in. (A carriage return would be
/// taken for a line ending the second time, so the docstring has none.)
pub proof fn lemma_clean_docstring_idempotent(doc: Seq<char>)
    requires
        dedent_defined(doc),
        forall|i: int| 0 <= i < doc.len() ==> doc[i] != '\r',
    ensures
        dedent_defined(cleaned_docstring(doc)),
        cleaned_docstring(cleaned_docstring(doc)) == cleaned_docstring(doc),
{
    let ls = lines(doc);
    let w = dedent_width(ls);
    let cl = cleaned_lines(ls, w);
    let c = cleaned_docstring(doc);
    assert(c == terminated(cl));
    lemma_lines_chars(doc, 0);
    lemma_min_indent(ls, ls.len() as int);
    lemma_blank_iff(Seq::<char>::empty());
    assert forall|i: int| 1 <= i < ls.len() && !is_blank(#[trigger] ls[i]) implies ({
        let k = boundary(ls[i], w);
        &&& 0 <= k <= lead_ws(ls[i])
        &&& cl[i] == ls[i].skip(k)
        &&& !is_blank(cl[i])
        &&& line_indent(ls[i]) >= w
        &&& line_indent(cl[i]) + w == line_indent(ls[i])
    }) by {
        let l = ls[i];
        lemma_boundary_in_indent(l, w);
        assert(has_boundary(l, w));
        let k = boundary(l, w);
        assert(cl[i] == l.skip(k));
        lemma_skip_in_indent(l, k);
    }
    assert forall|i: int| 1 <= i < ls.len() implies (is_blank(#[trigger] cl[i]) <==> is_blank(
        ls[i],
    )) by {
        if is_blank(ls[i]) {
            assert(cl[i] == Seq::<char>::empty());
        }
    }
    assert forall|i: int, j: int|
        0 <= i < cl.len() && 0 <= j < cl[i].len() implies #[trigger] cl[i][j] != '\n' && cl[i][j]
        != '\r' by {
        if i > 0 && !is_blank(ls[i]) {
            let k = boundary(ls[i], w);
            assert(cl[i][j] == ls[i][j + k]);
        }
    }
    lemma_lines_of_terminated(Seq::<char>::empty(), cl);
    assert(Seq::<char>::empty() + terminated(cl) =~= c);
    assert(lines(c) == cl);
    lemma_min_indent_shift(ls, cl, w, ls.len() as int);
    assert(dedent_width(cl) == 0);
    assert forall|i: int| 0 <= i < cl.len() implies #[trigger] cleaned_line(cl, i, 0) == cl[i] by {
        if i > 0 {
            if is_blank(cl[i]) {
                assert(cl[i] == Seq::<char>::empty());
            } else {
                assert(cl[i].take(0) =~= Seq::<char>::empty());
                lemma_boundary_unique(cl[i], 0, 0);
                assert(cl[i].skip(0) =~= cl[i]);
            }
        }
    }
    assert(cleaned_lines(cl, 0) =~= cl);
    assert forall|i: int|
        1 <= i < cl.len() && !is_blank(#[trigger] cl[i]) && utf8_len(cl[i]) >= dedent_width(
            cl,
        ) implies has_boundary(cl[i], dedent_width(cl)) by {
        assert(cl[i].take(0) =~= Seq::<char>::empty());
        assert(utf8_len(cl[i].take(0)) == 0);
    }
}

/// Dedenting takes nothing but leading whitespace off the later lines, and no
/// more than they share: when some later line is not blank, one of them ends
/// up starting with a character that is not whitespace.
pub proof fn lemma_dedent_removes_common_indent(doc: Seq<char>)
    requires
        dedent_defined(doc),
    ensures
        ({
            let ls = lines(doc);
            let m = dedent_width(ls);
            let cl = cleaned_lines(ls, m);
            &&& cl.len() == ls.len()
            &&& ls.len() > 0 ==> cl[0] == ls[0]
            &&& forall|i: int|
                1 <= i < ls.len() && !is_blank(#[trigger] ls[i]) ==> exists|k: int|
                    0 <= k <= lead_ws(ls[i]) && cl[i] == ls[i].skip(k)
            &&& (exists|i: int| 1 <= i < ls.len() && !is_blank(#[trigger] ls[i])) ==> exists|i: int|
                1 <= i < ls.len() && (#[trigger] cl[i]).len() > 0 && !is_ws(cl[i][0])
        }),
{
    let ls = lines(doc);
    let m = dedent_width(ls);
    let cl = cleaned_lines(ls, m);
    lemma_min_indent(ls, ls.len() as int);
    assert forall|i: int| 1 <= i < ls.len() && !is_blank(#[trigger] ls[i]) implies exists|k: int|
        0 <= k <= lead_ws(ls[i]) && cl[i] == ls[i].skip(k) by {
        lemma_boundary_in_indent(ls[i], m);
        assert(cl[i] == ls[i].skip(boundary(ls[i], m)));
    }
    if exists|i: int| 1 <= i < ls.len() && !is_blank(#[trigger] ls[i]) {
        let i0 = choose|i: int| 1 <= i < ls.len() && !is_blank(#[trigger] ls[i]);
        if min_indent_upto(ls, ls.len() as int) is None {
            assert(is_blank(ls[i0]));
        }
        let j = choose|j: int|
            1 <= j < ls.len() && !is_blank(#[trigger] ls[j]) && line_indent(ls[j]) == m;
        let l = ls[j];
        lemma_boundary_in_indent(l, m);
        lemma_blank_iff(l);
        lemma_run_from_bounds(l, 0, TrimSet::Whitespace);
        assert(cl[j] == l.skip(lead_ws(l) as int));
        assert(cl[j][0] == l[lead_ws(l) as int]);
    }
}

/// No line kept by [`extract_z_index_and_clean`] is a directive, and a
/// docstring without directives keeps all its lines and sets no z-index.
pub proof fn lemma_z_directives_removed(ls: Seq<Seq<char>>, n: int)
    requires
        0 <= n <= ls.len(),
    ensures
        forall|k: int|
            0 <= k < non_directive_lines(ls, n).len() ==> !is_z_directive(
                #[trigger] non_directive_lines(ls, n)[k],
            ),
        (forall|i: int| 0 <= i < n ==> !is_z_directive(#[trigger] ls[i])) ==> z_index_of(ls, n)
            == i32::MAX && non_directive_lines(ls, n) == ls.take(n),
    decreases n,
{
    if n > 0 {
        lemma_z_directives_removed(ls, n - 1);
        let prev = non_directive_lines(ls, n - 1);
        assert forall|k: int|
            0 <= k < non_directive_lines(ls, n).len() implies !is_z_directive(
            #[trigger] non_directive_lines(ls, n)[k],
        ) by {
            if !is_z_directive(ls[n - 1]) && k < prev.len() {
                assert(non_directive_lines(ls, n)[k] == prev[k]);
            }
        }
        if forall|i: int| 0 <= i < n ==> !is_z_directive(#[trigger] ls[i]) {
            assert(!is_z_directive(ls[n - 1]));
            assert(ls.take(n - 1).push(ls[n - 1]) =~= ls.take(n));
        }
    } else {
        assert(ls.take(0) =~= Seq::<Seq<char>>::empty());
    }
}

/// A docstring without directives, carriage returns or a final newline comes
/// out of [`extract_z_index_and_clean`] unchanged, and sets no z-index.
pub proof fn lemma_no_directive_unchanged(doc: Seq<char>)
    requires
        forall|i: int| 0 <= i < lines(doc).len() ==> !is_z_directive(#[trigger] lines(doc)[i]),
        forall|i: int| 0 <= i < doc.len() ==> doc[i] != '\r',
        doc.len() == 0 || doc.last() != '\n',
    ensures
        z_index_of(lines(doc), lines(doc).len() as int) == i32::MAX,
        without_z_directives(doc) == doc,
{
    let ls = lines(doc);
    lemma_z_directives_removed(ls, ls.len() as int);
    assert(ls.take(ls.len() as int) =~= ls);
    lemma_lines_join(doc, 0);
    assert(doc.skip(0) =~= doc);
}

} // verus!
