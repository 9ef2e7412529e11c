//! Character-level text operations: whitespace, trimming, prefixes, line
//! splitting and joining, integer parsing, and UTF-8 widths.
//!
//! Texts are modelled as `Seq<char>`; the executable functions work on
//! `&[char]` and report positions or copies.
use vstd::prelude::*;

verus! {

/// `String::push`. Trusted: as its documentation says, the character is
/// appended to the end of the string.
pub assume_specification[ String::push ](s: &mut String, ch: char)
    ensures
        final(s)@ == old(s)@.push(ch),
;

/// `String::push_str`. Trusted: as its documentation says, the given string
/// slice is appended to the end of the string.
pub assume_specification[ String::push_str ](s: &mut String, string: &str)
    ensures
        final(s)@ == old(s)@ + string@,
;

// ---------------------------------------------------------------------------
// Characters
// ---------------------------------------------------------------------------

/// `char::is_whitespace`: the characters with the Unicode `White_Space` property.
pub open spec fn is_ws(c: char) -> bool {
    let u = c as u32;
    ||| 0x9 <= u <= 0xD
    ||| u == 0x20
    ||| u == 0x85
    ||| u == 0xA0
    ||| u == 0x1680
    ||| 0x2000 <= u <= 0x200A
    ||| u == 0x2028
    ||| u == 0x2029
    ||| u == 0x202F
    ||| u == 0x205F
    ||| u == 0x3000
}

/// Whether `c` is Unicode whitespace.
pub fn is_whitespace(c: char) -> (r: bool)
    ensures
        r == is_ws(c),
{
    let u = c as u32;
    (0x9 <= u && u <= 0xD) || u == 0x20 || u == 0x85 || u == 0xA0 || u == 0x1680 || (0x2000 <= u
        && u <= 0x200A) || u == 0x2028 || u == 0x2029 || u == 0x202F || u == 0x205F || u == 0x3000
}

/// An ASCII decimal digit.
pub open spec fn is_digit(c: char) -> bool {
    48 <= (c as u32) <= 57
}

/// The number an ASCII digit stands for.
pub open spec fn digit_value(c: char) -> int {
    (c as u32) - 48
}

/// The number of bytes of `c` in UTF-8.
pub open spec fn utf8_width(c: char) -> nat {
    let u = c as u32;
    if u < 0x80 {
        1
    } else if u < 0x800 {
        2
    } else if u < 0x10000 {
        3
    } else {
        4
    }
}

/// The number of bytes of `s` in UTF-8.
pub open spec fn utf8_len(s: Seq<char>) -> nat
    decreases s.len(),
{
    if s.len() == 0 {
        0
    } else {
        utf8_len(s.drop_last()) + utf8_width(s.last())
    }
}

pub fn char_utf8_width(c: char) -> (w: usize)
    ensures
        w == utf8_width(c),
        1 <= w <= 4,
{
    let u = c as u32;
    if u < 0x80 {
        1
    } else if u < 0x800 {
        2
    } else if u < 0x10000 {
        3
    } else {
        4
    }
}

/// Adding the next character of `s` to a prefix adds its width.
pub proof fn lemma_utf8_len_take_step(s: Seq<char>, k: int)
    requires
        0 <= k < s.len(),
    ensures
        utf8_len(s.take(k + 1)) == utf8_len(s.take(k)) + utf8_width(s[k]),
{
    assert(s.take(k + 1).drop_last() =~= s.take(k));
}

/// Longer prefixes are wider.
pub proof fn lemma_utf8_len_take_mono(s: Seq<char>, k1: int, k2: int)
    requires
        0 <= k1 <= k2 <= s.len(),
    ensures
        utf8_len(s.take(k1)) + (k2 - k1) <= utf8_len(s.take(k2)),
    decreases k2 - k1,
{
    if k1 < k2 {
        lemma_utf8_len_take_mono(s, k1, k2 - 1);
        lemma_utf8_len_take_step(s, k2 - 1);
    }
}

/// The width of a concatenation is the sum of the widths.
pub proof fn lemma_utf8_len_concat(a: Seq<char>, b: Seq<char>)
    ensures
        utf8_len(a + b) == utf8_len(a) + utf8_len(b),
    decreases b.len(),
{
    if b.len() == 0 {
        assert(a + b =~= a);
    } else {
        assert((a + b).drop_last() =~= a + b.drop_last());
        lemma_utf8_len_concat(a, b.drop_last());
    }
}

/// A piece of a text is no wider than the text.
pub proof fn lemma_utf8_len_subrange(s: Seq<char>, a: int, b: int)
    requires
        0 <= a <= b <= s.len(),
    ensures
        utf8_len(s.subrange(a, b)) <= utf8_len(s),
{
    assert(s =~= s.take(a) + s.subrange(a, b) + s.skip(b));
    lemma_utf8_len_concat(s.take(a) + s.subrange(a, b), s.skip(b));
    lemma_utf8_len_concat(s.take(a), s.subrange(a, b));
}

/// The width of `s`, when it fits in a `usize`.
pub fn utf8_len_of(s: &[char]) -> (n: usize)
    requires
        utf8_len(s@) <= usize::MAX,
    ensures
        n == utf8_len(s@),
{
    let mut acc: usize = 0;
    let mut i: usize = 0;
    while i < s.len()
        invariant
            i <= s@.len(),
            acc == utf8_len(s@.take(i as int)),
            utf8_len(s@) <= usize::MAX,
        decreases s@.len() - i,
    {
        proof {
            lemma_utf8_len_take_step(s@, i as int);
            lemma_utf8_len_take_mono(s@, i + 1, s@.len() as int);
            assert(s@.take(s@.len() as int) =~= s@);
        }
        acc = acc + char_utf8_width(s[i]);
        i += 1;
    }
    assert(s@.take(s@.len() as int) =~= s@);
    acc
}

// ---------------------------------------------------------------------------
// Trimming
// ---------------------------------------------------------------------------

/// The characters a trim removes: whitespace, or one given character.
#[derive(Clone, Copy)]
pub enum TrimSet {
    Whitespace,
    Char(char),
}

pub open spec fn trims(set: TrimSet, c: char) -> bool {
    match set {
        TrimSet::Whitespace => is_ws(c),
        TrimSet::Char(x) => c == x,
    }
}

fn trims_char(set: TrimSet, c: char) -> (r: bool)
    ensures
        r == trims(set, c),
{
    match set {
        TrimSet::Whitespace => is_whitespace(c),
        TrimSet::Char(x) => c == x,
    }
}

/// The length of the run of trimmed characters that starts at `i`.
pub open spec fn run_from(s: Seq<char>, i: int, set: TrimSet) -> nat
    decreases s.len() - i,
{
    if 0 <= i < s.len() && trims(set, s[i]) {
        1 + run_from(s, i + 1, set)
    } else {
        0
    }
}

/// The length of the run of trimmed characters that ends just before `end`.
pub open spec fn run_back(s: Seq<char>, end: int, set: TrimSet) -> nat
    decreases end,
{
    if 0 < end <= s.len() && trims(set, s[end - 1]) {
        1 + run_back(s, end - 1, set)
    } else {
        0
    }
}

/// `s` without its leading characters of `set` (`str::trim_start` for whitespace).
pub open spec fn trim_start_by(s: Seq<char>, set: TrimSet) -> Seq<char> {
    s.skip(run_from(s, 0, set) as int)
}

/// `s` without its leading and trailing characters of `set`
/// (`str::trim` for whitespace, `str::trim_matches` for a character).
pub open spec fn trim_by(s: Seq<char>, set: TrimSet) -> Seq<char> {
    let a = run_from(s, 0, set);
    let b = s.len() - run_back(s, s.len() as int, set);
    if a <= b {
        s.subrange(a as int, b)
    } else {
        Seq::empty()
    }
}

pub open spec fn trim_start(s: Seq<char>) -> Seq<char> {
    trim_start_by(s, TrimSet::Whitespace)
}

pub open spec fn trim(s: Seq<char>) -> Seq<char> {
    trim_by(s, TrimSet::Whitespace)
}

/// A line with nothing but whitespace in it (`line.trim().is_empty()`).
pub open spec fn is_blank(s: Seq<char>) -> bool {
    trim(s).len() == 0
}

pub proof fn lemma_run_from_bounds(s: Seq<char>, i: int, set: TrimSet)
    requires
        0 <= i <= s.len(),
    ensures
        run_from(s, i, set) <= s.len() - i,
        forall|j: int| i <= j < i + run_from(s, i, set) ==> trims(set, #[trigger] s[j]),
        i + run_from(s, i, set) < s.len() ==> !trims(set, s[i + run_from(s, i, set)]),
    decreases s.len() - i,
{
    if i < s.len() && trims(set, s[i]) {
        lemma_run_from_bounds(s, i + 1, set);
    }
}

pub proof fn lemma_run_back_bounds(s: Seq<char>, end: int, set: TrimSet)
    requires
        0 <= end <= s.len(),
    ensures
        run_back(s, end, set) <= end,
        forall|j: int| end - run_back(s, end, set) <= j < end ==> trims(set, #[trigger] s[j]),
        end - run_back(s, end, set) > 0 ==> !trims(set, s[end - run_back(s, end, set) - 1]),
    decreases end,
{
    if end > 0 && trims(set, s[end - 1]) {
        lemma_run_back_bounds(s, end - 1, set);
    }
}

/// A run going back from `end` stops before any character it does not trim.
pub proof fn lemma_run_back_stops(s: Seq<char>, end: int, set: TrimSet, j: int)
    requires
        0 <= j < end <= s.len(),
        !trims(set, s[j]),
    ensures
        run_back(s, end, set) <= end - j - 1,
    decreases end,
{
    if end - 1 > j && trims(set, s[end - 1]) {
        lemma_run_back_stops(s, end - 1, set, j);
    }
}

/// The position after the run of `set` characters that starts at `from`.
pub fn run_end(s: &[char], from: usize, set: TrimSet) -> (k: usize)
    requires
        from <= s@.len(),
    ensures
        k == from + run_from(s@, from as int, set),
        k <= s@.len(),
{
    let mut i = from;
    while i < s.len() && trims_char(set, s[i])
        invariant
            from <= i <= s@.len(),
            run_from(s@, from as int, set) == (i - from) + run_from(s@, i as int, set),
        decreases s@.len() - i,
    {
        i += 1;
    }
    i
}

/// The position where the run of `set` characters that ends before `end` begins.
pub fn run_start_back(s: &[char], end: usize, set: TrimSet) -> (k: usize)
    requires
        end <= s@.len(),
    ensures
        k + run_back(s@, end as int, set) == end,
{
    let mut i = end;
    while i > 0 && trims_char(set, s[i - 1])
        invariant
            i <= end <= s@.len(),
            run_back(s@, end as int, set) == (end - i) + run_back(s@, i as int, set),
        decreases i,
    {
        i -= 1;
    }
    i
}

/// The bounds of `trim_by(s, set)` within `s`.
pub fn trim_range(s: &[char], set: TrimSet) -> (r: (usize, usize))
    ensures
        r.0 <= r.1 <= s@.len(),
        s@.subrange(r.0 as int, r.1 as int) == trim_by(s@, set),
        r.0 == run_from(s@, 0, set),
{
    let a = run_end(s, 0, set);
    let b = run_start_back(s, s.len(), set);
    proof {
        lemma_run_from_bounds(s@, 0, set);
        lemma_run_back_bounds(s@, s@.len() as int, set);
    }
    if a <= b {
        (a, b)
    } else {
        assert(s@.subrange(a as int, a as int) =~= Seq::<char>::empty());
        (a, a)
    }
}

/// A blank line is one whose leading whitespace reaches its end.
pub proof fn lemma_blank_iff(s: Seq<char>)
    ensures
        is_blank(s) <==> run_from(s, 0, TrimSet::Whitespace) == s.len(),
{
    let set = TrimSet::Whitespace;
    lemma_run_from_bounds(s, 0, set);
    lemma_run_back_bounds(s, s.len() as int, set);
    let a = run_from(s, 0, set);
    if a < s.len() {
        lemma_run_back_stops(s, s.len() as int, set, a as int);
    }
}

/// Whether `s` is blank.
pub fn is_blank_line(s: &[char]) -> (r: bool)
    ensures
        r == is_blank(s@),
{
    proof {
        lemma_blank_iff(s@);
    }
    run_end(s, 0, TrimSet::Whitespace) == s.len()
}

// ---------------------------------------------------------------------------
// Prefixes
// ---------------------------------------------------------------------------

/// `str::starts_with` for a string pattern.
pub open spec fn starts_with(s: Seq<char>, p: Seq<char>) -> bool {
    p.len() <= s.len() && s.take(p.len() as int) == p
}

/// `str::trim_start_matches` for a non-empty string pattern: every leading
/// repetition of `p` removed.
pub open spec fn trim_start_matches(s: Seq<char>, p: Seq<char>) -> Seq<char>
    decreases s.len(),
{
    if p.len() > 0 && starts_with(s, p) {
        trim_start_matches(s.skip(p.len() as int), p)
    } else {
        s
    }
}

/// Whether `s` has `p` at position `at`.
pub fn starts_with_at(s: &[char], at: usize, p: &[char]) -> (r: bool)
    requires
        at <= s@.len(),
    ensures
        r == starts_with(s@.skip(at as int), p@),
{
    let n = s.len();
    if p.len() > n - at {
        return false;
    }
    let mut j: usize = 0;
    while j < p.len()
        invariant
            j <= p@.len(),
            n == s@.len(),
            at + p@.len() <= n,
            forall|k: int| 0 <= k < j ==> s@[at + k] == p@[k],
        decreases p@.len() - j,
    {
        if s[at + j] != p[j] {
            assert(s@.skip(at as int).take(p@.len() as int)[j as int] != p@[j as int]);
            return false;
        }
        j += 1;
    }
    assert(s@.skip(at as int).take(p@.len() as int) =~= p@);
    true
}

/// The position in `s` where `trim_start_matches(s@.skip(from), p@)` begins.
pub fn trim_start_matches_from(s: &[char], from: usize, p: &[char]) -> (k: usize)
    requires
        from <= s@.len(),
        p@.len() > 0,
    ensures
        from <= k <= s@.len(),
        s@.skip(k as int) == trim_start_matches(s@.skip(from as int), p@),
{
    let n = s.len();
    let mut k = from;
    while starts_with_at(s, k, p)
        invariant
            n == s@.len(),
            from <= k <= s@.len(),
            p@.len() > 0,
            trim_start_matches(s@.skip(k as int), p@) == trim_start_matches(
                s@.skip(from as int),
                p@,
            ),
        decreases s@.len() - k,
    {
        assert(s@.skip(k as int).skip(p@.len() as int) =~= s@.skip(k + p@.len()));
        k = k + p.len();
    }
    k
}

// ---------------------------------------------------------------------------
// Copies and conversions
// ---------------------------------------------------------------------------

/// The characters of `s`, in order.
pub fn chars_of(s: &str) -> (v: Vec<char>)
    ensures
        v@ == s@,
{
    let mut v: Vec<char> = Vec::new();
    for c in it: s.chars()
        invariant
            v@ == it.seq().take(it.index() as int),
    {
        v.push(c);
    }
    v
}

/// The string made of the characters of `v`.
pub fn string_of(v: &[char]) -> (s: String)
    ensures
        s@ == v@,
{
    let mut s = String::new();
    let mut i: usize = 0;
    while i < v.len()
        invariant
            i <= v@.len(),
            s@ == v@.take(i as int),
        decreases v@.len() - i,
    {
        s.push(v[i]);
        i += 1;
        assert(v@.take(i as int) =~= v@.take(i - 1).push(v@[i - 1]));
    }
    assert(v@.take(v@.len() as int) =~= v@);
    s
}

/// A copy of `s[a..b]`.
pub fn copy_range(s: &[char], a: usize, b: usize) -> (v: Vec<char>)
    requires
        a <= b <= s@.len(),
    ensures
        v@ == s@.subrange(a as int, b as int),
{
    let mut v: Vec<char> = Vec::new();
    let mut i = a;
    while i < b
        invariant
            a <= i <= b <= s@.len(),
            v@ == s@.subrange(a as int, i as int),
        decreases b - i,
    {
        v.push(s[i]);
        i += 1;
        assert(v@ =~= s@.subrange(a as int, i as int));
    }
    v
}

/// Appends `s[a..b]` to `out`.
pub fn append_range(out: &mut Vec<char>, s: &[char], a: usize, b: usize)
    requires
        a <= b <= s@.len(),
    ensures
        final(out)@ == old(out)@ + s@.subrange(a as int, b as int),
{
    let mut i = a;
    while i < b
        invariant
            a <= i <= b <= s@.len(),
            out@ == old(out)@ + s@.subrange(a as int, i as int),
        decreases b - i,
    {
        out.push(s[i]);
        i += 1;
        assert(out@ =~= old(out)@ + s@.subrange(a as int, i as int));
    }
}

/// Appends all of `s` to `out`.
pub fn append_all(out: &mut Vec<char>, s: &[char])
    ensures
        final(out)@ == old(out)@ + s@,
{
    append_range(out, s, 0, s.len());
    assert(s@.subrange(0, s@.len() as int) =~= s@);
}

/// Whether `a` and `b` hold the same characters.
pub fn same_chars(a: &[char], b: &[char]) -> (r: bool)
    ensures
        r == (a@ == b@),
{
    if a.len() != b.len() {
        return false;
    }
    let mut i: usize = 0;
    while i < a.len()
        invariant
            i <= a@.len(),
            a@.len() == b@.len(),
            forall|j: int| 0 <= j < i ==> a@[j] == b@[j],
        decreases a@.len() - i,
    {
        if a[i] != b[i] {
            return false;
        }
        i += 1;
    }
    assert(a@ =~= b@);
    true
}

/// Whether `a` and `b` are the same text.
pub fn str_eq(a: &str, b: &str) -> (r: bool)
    ensures
        r == (a@ == b@),
{
    let x = chars_of(a);
    let y = chars_of(b);
    same_chars(&x, &y)
}

// ---------------------------------------------------------------------------
// Lines
// ---------------------------------------------------------------------------

/// The first position at or after `i` that holds `c`, or `s.len()`.
pub open spec fn index_of_from(s: Seq<char>, i: int, c: char) -> int
    decreases s.len() - i,
{
    if 0 <= i < s.len() {
        if s[i] == c {
            i
        } else {
            index_of_from(s, i + 1, c)
        }
    } else {
        s.len() as int
    }
}

pub proof fn lemma_index_of_from(s: Seq<char>, i: int, c: char)
    requires
        0 <= i <= s.len(),
    ensures
        i <= index_of_from(s, i, c) <= s.len(),
        index_of_from(s, i, c) < s.len() ==> s[index_of_from(s, i, c)] == c,
        forall|j: int| i <= j < index_of_from(s, i, c) ==> #[trigger] s[j] != c,
    decreases s.len() - i,
{
    if i < s.len() && s[i] != c {
        lemma_index_of_from(s, i + 1, c);
    }
}

/// The first position at or after `from` that holds `c`, or `s.len()`.
pub fn find_char(s: &[char], from: usize, c: char) -> (k: usize)
    requires
        from <= s@.len(),
    ensures
        k == index_of_from(s@, from as int, c),
{
    let mut i = from;
    while i < s.len() && s[i] != c
        invariant
            from <= i <= s@.len(),
            index_of_from(s@, from as int, c) == index_of_from(s@, i as int, c),
        decreases s@.len() - i,
    {
        i += 1;
    }
    i
}

/// A line without the carriage return that ended it, if any.
pub open spec fn strip_cr(l: Seq<char>) -> Seq<char> {
    if l.len() > 0 && l.last() == '\r' {
        l.drop_last()
    } else {
        l
    }
}

/// `str::lines` applied to `s[start..]`: the text is cut at each `'\n'`, a
/// `'\r'` just before a cut is dropped, and a final line ending is optional.
pub open spec fn lines_from(s: Seq<char>, start: int) -> Seq<Seq<char>>
    decreases s.len() - start,
{
    if start < 0 || start >= s.len() {
        Seq::empty()
    } else {
        let e = index_of_from(s, start, '\n');
        if e >= s.len() {
            seq![s.subrange(start, s.len() as int)]
        } else {
            proof {
                lemma_index_of_from(s, start, '\n');
            }
            seq![strip_cr(s.subrange(start, e))] + lines_from(s, e + 1)
        }
    }
}

/// `str::lines`.
pub open spec fn lines(s: Seq<char>) -> Seq<Seq<char>> {
    lines_from(s, 0)
}

/// The characters of each vector.
pub open spec fn views(v: Seq<Vec<char>>) -> Seq<Seq<char>> {
    v.map_values(|x: Vec<char>| x@)
}

/// The characters of each string.
pub open spec fn string_views(v: Seq<String>) -> Seq<Seq<char>> {
    v.map_values(|x: String| x@)
}

/// The lines of `s`.
pub fn split_lines(s: &[char]) -> (out: Vec<Vec<char>>)
    ensures
        views(out@) == lines(s@),
{
    let mut out: Vec<Vec<char>> = Vec::new();
    let mut start: usize = 0;
    while start < s.len()
        invariant
            start <= s@.len(),
            lines(s@) == views(out@) + lines_from(s@, start as int),
        decreases s@.len() - start,
    {
        let e = find_char(s, start, '\n');
        proof {
            lemma_index_of_from(s@, start as int, '\n');
        }
        if e == s.len() {
            let line = copy_range(s, start, e);
            let ghost before = out@;
            out.push(line);
            assert(views(out@) =~= views(before).push(line@));
            start = e;
        } else {
            let mut end = e;
            if end > start && s[end - 1] == '\r' {
                end = end - 1;
            }
            let line = copy_range(s, start, end);
            assert(line@ =~= strip_cr(s@.subrange(start as int, e as int)));
            let ghost before = out@;
            out.push(line);
            assert(views(out@) =~= views(before).push(line@));
            start = e + 1;
        }
    }
    out
}

/// The lines of `s`, as strings.
pub fn text_lines(s: &str) -> (out: Vec<String>)
    ensures
        string_views(out@) == lines(s@),
{
    let chars = chars_of(s);
    let ls = split_lines(&chars);
    let mut out: Vec<String> = Vec::new();
    let mut i: usize = 0;
    while i < ls.len()
        invariant
            i <= ls@.len(),
            string_views(out@) == views(ls@).take(i as int),
        decreases ls@.len() - i,
    {
        let ghost before = out@;
        let line = string_of(&ls[i]);
        out.push(line);
        assert(out@ == before.push(line));
        assert(string_views(out@) =~= string_views(before).push(line@));
        assert(views(ls@).take(i + 1) =~= views(ls@).take(i as int).push(ls@[i as int]@));
        i += 1;
    }
    assert(views(ls@).take(ls@.len() as int) =~= views(ls@));
    out
}

/// The lines joined by `sep` (`[&str]::join`).
pub open spec fn join_with(ls: Seq<Seq<char>>, sep: Seq<char>) -> Seq<char>
    decreases ls.len(),
{
    if ls.len() == 0 {
        Seq::empty()
    } else if ls.len() == 1 {
        ls[0]
    } else {
        join_with(ls.drop_last(), sep) + sep + ls.last()
    }
}

/// Each line followed by `'\n'`.
pub open spec fn terminated(ls: Seq<Seq<char>>) -> Seq<char>
    decreases ls.len(),
{
    if ls.len() == 0 {
        Seq::empty()
    } else {
        terminated(ls.drop_last()) + ls.last() + seq!['\n']
    }
}

/// Joins the vectors of `ls` with `sep` between them.
pub fn join_lines(ls: &Vec<Vec<char>>, sep: &[char]) -> (out: Vec<char>)
    ensures
        out@ == join_with(views(ls@), sep@),
{
    let mut out: Vec<char> = Vec::new();
    let mut i: usize = 0;
    while i < ls.len()
        invariant
            i <= ls@.len(),
            out@ == join_with(views(ls@).take(i as int), sep@),
        decreases ls@.len() - i,
    {
        if i > 0 {
            append_all(&mut out, sep);
        }
        append_all(&mut out, &ls[i]);
        assert(views(ls@).take(i + 1).drop_last() =~= views(ls@).take(i as int));
        i += 1;
    }
    assert(views(ls@).take(ls@.len() as int) =~= views(ls@));
    out
}

/// Joining a first line to the join of the rest puts one separator between them.
pub proof fn lemma_join_with_cons(a: Seq<char>, rest: Seq<Seq<char>>, sep: Seq<char>)
    requires
        rest.len() > 0,
    ensures
        join_with(seq![a] + rest, sep) == a + sep + join_with(rest, sep),
    decreases rest.len(),
{
    let all = seq![a] + rest;
    assert(all.drop_last() =~= seq![a] + rest.drop_last());
    assert(all.last() == rest.last());
    assert(join_with(all, sep) == join_with(all.drop_last(), sep) + sep + rest.last());
    if rest.len() == 1 {
        assert(rest.drop_last() =~= Seq::<Seq<char>>::empty());
        assert(seq![a] + rest.drop_last() =~= seq![a]);
        assert(join_with(seq![a], sep) == a);
        assert(join_with(rest, sep) == rest[0]);
        assert(rest.last() == rest[0]);
    } else {
        lemma_join_with_cons(a, rest.drop_last(), sep);
        assert(join_with(rest, sep) == join_with(rest.drop_last(), sep) + sep + rest.last());
        assert(a + sep + join_with(rest.drop_last(), sep) + sep + rest.last() =~= a + sep + (
        join_with(rest.drop_last(), sep) + sep + rest.last()));
    }
}

/// Splitting a text into lines and joining them with newlines gives the text
/// back, when it holds no carriage return and does not end with a newline.
pub proof fn lemma_lines_join(s: Seq<char>, start: int)
    requires
        0 <= start <= s.len(),
        forall|i: int| 0 <= i < s.len() ==> s[i] != '\r',
        s.len() == 0 || s.last() != '\n',
    ensures
        join_with(lines_from(s, start), "\n"@) == s.skip(start),
    decreases s.len() - start,
{
    reveal_strlit("\n");
    if start == s.len() {
        assert(s.skip(start) =~= Seq::<char>::empty());
    } else {
        let e = index_of_from(s, start, '\n');
        lemma_index_of_from(s, start, '\n');
        if e >= s.len() {
            assert(s.subrange(start, s.len() as int) =~= s.skip(start));
        } else {
            assert(e + 1 < s.len());
            lemma_lines_join(s, e + 1);
            let l = s.subrange(start, e);
            if l.len() > 0 {
                assert(l.last() == s[e - 1]);
            }
            assert(strip_cr(l) == l);
            let rest = lines_from(s, e + 1);
            assert(rest.len() > 0);
            lemma_join_with_cons(l, rest, "\n"@);
            assert(s.skip(start) =~= l + "\n"@ + s.skip(e + 1));
        }
    }
}

/// Terminated lines are the first line, a newline, then the rest terminated.
pub proof fn lemma_terminated_cons(ls: Seq<Seq<char>>)
    requires
        ls.len() > 0,
    ensures
        terminated(ls) == ls[0] + seq!['\n'] + terminated(ls.drop_first()),
    decreases ls.len(),
{
    if ls.len() == 1 {
        assert(ls.drop_last() =~= Seq::<Seq<char>>::empty());
        assert(ls.drop_first() =~= Seq::<Seq<char>>::empty());
        assert(terminated(ls) =~= ls[0] + seq!['\n'] + terminated(ls.drop_first()));
    } else {
        lemma_terminated_cons(ls.drop_last());
        assert(ls.drop_last().drop_first() =~= ls.drop_first().drop_last());
        assert(ls.drop_first().last() == ls.last());
        assert(terminated(ls) =~= ls[0] + seq!['\n'] + terminated(ls.drop_first()));
    }
}

/// Splitting newline-terminated lines, none of which holds a newline or a
/// carriage return, gives those lines back (`p` is any text before them).
pub proof fn lemma_lines_of_terminated(p: Seq<char>, ls: Seq<Seq<char>>)
    requires
        forall|i: int, j: int|
            0 <= i < ls.len() && 0 <= j < ls[i].len() ==> #[trigger] ls[i][j] != '\n' && ls[i][j]
                != '\r',
    ensures
        lines_from(p + terminated(ls), p.len() as int) == ls,
    decreases ls.len(),
{
    let s = p + terminated(ls);
    if ls.len() == 0 {
        assert(s =~= p);
    } else {
        lemma_terminated_cons(ls);
        let x = ls[0];
        let rest = ls.drop_first();
        let q = p + x + seq!['\n'];
        assert(s =~= q + terminated(rest));
        let e: int = (p.len() + x.len()) as int;
        lemma_index_of_from(s, p.len() as int, '\n');
        let f = index_of_from(s, p.len() as int, '\n');
        assert(s[e] == '\n');
        if f < e {
            assert(s[f] == ls[0][f - p.len()]);
        }
        assert(f == e);
        assert(s.subrange(p.len() as int, e) =~= x);
        if x.len() > 0 {
            assert(x.last() == ls[0][x.len() - 1]);
        }
        assert(strip_cr(x) == x);
        assert forall|i: int, j: int|
            0 <= i < rest.len() && 0 <= j < rest[i].len() implies #[trigger] rest[i][j] != '\n'
            && rest[i][j] != '\r' by {
            assert(rest[i] == ls[i + 1]);
            assert(ls[i + 1][j] != '\n');
        }
        lemma_lines_of_terminated(q, rest);
        assert(q.len() == e + 1);
        assert(lines_from(s, p.len() as int) == seq![x] + lines_from(s, e + 1));
        assert(seq![x] + rest =~= ls);
    }
}

/// No line of a text holds a newline, nor a carriage return when the text has none.
pub proof fn lemma_lines_chars(s: Seq<char>, start: int)
    requires
        0 <= start,
        forall|j: int| 0 <= j < s.len() ==> s[j] != '\r',
    ensures
        forall|k: int, j: int|
            0 <= k < lines_from(s, start).len() && 0 <= j < lines_from(s, start)[k].len()
                ==> #[trigger] lines_from(s, start)[k][j] != '\n' && lines_from(s, start)[k][j]
                != '\r',
    decreases s.len() - start,
{
    if start < s.len() {
        let e = index_of_from(s, start, '\n');
        lemma_index_of_from(s, start, '\n');
        let all = lines_from(s, start);
        if e < s.len() {
            lemma_lines_chars(s, e + 1);
            let l = s.subrange(start, e);
            if l.len() > 0 {
                assert(l.last() == s[e - 1]);
            }
            assert(strip_cr(l) == l);
            let rest = lines_from(s, e + 1);
            assert forall|k: int, j: int|
                0 <= k < all.len() && 0 <= j < all[k].len() implies #[trigger] all[k][j] != '\n'
                && all[k][j] != '\r' by {
                if k == 0 {
                    assert(all[0] == l);
                    assert(l[j] == s[start + j]);
                } else {
                    assert(all[k] == rest[k - 1]);
                }
            }
        } else {
            assert forall|k: int, j: int|
                0 <= k < all.len() && 0 <= j < all[k].len() implies #[trigger] all[k][j] != '\n'
                && all[k][j] != '\r' by {
                assert(all[k] == s.subrange(start, s.len() as int));
                assert(all[k][j] == s[start + j]);
            }
        }
    }
}

// ---------------------------------------------------------------------------
// Integers
// ---------------------------------------------------------------------------

/// The number written by a sequence of decimal digits.
pub open spec fn digits_value(ds: Seq<char>) -> int
    decreases ds.len(),
{
    if ds.len() == 0 {
        0
    } else {
        digits_value(ds.drop_last()) * 10 + digit_value(ds.last())
    }
}

/// All characters are ASCII digits.
pub open spec fn all_digits(ds: Seq<char>) -> bool {
    forall|i: int| 0 <= i < ds.len() ==> is_digit(#[trigger] ds[i])
}

/// `str::parse::<i32>`: an optional sign, then one or more ASCII digits, and a
/// value within the range of `i32`.
pub open spec fn parse_i32(s: Seq<char>) -> Option<i32> {
    if s.len() == 0 {
        None
    } else {
        let neg = s[0] == '-';
        let ds = if s[0] == '-' || s[0] == '+' {
            s.drop_first()
        } else {
            s
        };
        let v = if neg {
            -digits_value(ds)
        } else {
            digits_value(ds)
        };
        if ds.len() > 0 && all_digits(ds) && i32::MIN <= v <= i32::MAX {
            Some(v as i32)
        } else {
            None
        }
    }
}

proof fn lemma_digits_value_grows(ds: Seq<char>, k: int)
    requires
        0 <= k <= ds.len(),
        all_digits(ds),
    ensures
        digits_value(ds.take(k)) <= digits_value(ds),
        0 <= digits_value(ds.take(k)),
    decreases ds.len() - k,
{
    if k < ds.len() {
        lemma_digits_value_grows(ds, k + 1);
        assert(ds.take(k + 1).drop_last() =~= ds.take(k));
        assert(is_digit(ds[k]));
    } else {
        assert(ds.take(k) =~= ds);
        lemma_digits_value_nonneg(ds);
    }
}

proof fn lemma_digits_value_nonneg(ds: Seq<char>)
    requires
        all_digits(ds),
    ensures
        0 <= digits_value(ds),
    decreases ds.len(),
{
    if ds.len() > 0 {
        assert(is_digit(ds[ds.len() - 1]));
        lemma_digits_value_nonneg(ds.drop_last());
    }
}

/// Parses `s[a..b]` as an `i32`, as `str::parse::<i32>` does.
pub fn parse_i32_range(s: &[char], a: usize, b: usize) -> (r: Option<i32>)
    requires
        a <= b <= s@.len(),
    ensures
        r == parse_i32(s@.subrange(a as int, b as int)),
{
    let ghost t = s@.subrange(a as int, b as int);
    if a == b {
        return None;
    }
    let neg = s[a] == '-';
    let start = if s[a] == '-' || s[a] == '+' {
        a + 1
    } else {
        a
    };
    let ghost ds = s@.subrange(start as int, b as int);
    assert(ds =~= (if t[0] == '-' || t[0] == '+' {
        t.drop_first()
    } else {
        t
    }));
    if start == b {
        return None;
    }
    let bound: i64 = 2147483648;
    let mut acc: i64 = 0;
    let mut over = false;
    let mut i = start;
    while i < b
        invariant
            start <= i <= b <= s@.len(),
            t == s@.subrange(a as int, b as int),
            t.len() > 0,
            ds == (if t[0] == '-' || t[0] == '+' {
                t.drop_first()
            } else {
                t
            }),
            ds == s@.subrange(start as int, b as int),
            bound == 2147483648,
            forall|j: int| 0 <= j < i - start ==> is_digit(#[trigger] ds[j]),
            !over ==> acc == digits_value(ds.take(i - start)) && 0 <= acc <= bound,
            over ==> digits_value(ds.take(i - start)) > bound,
        decreases b - i,
    {
        let c = s[i];
        let u = c as u32;
        if u < 48 || u > 57 {
            assert(!is_digit(ds[i - start]));
            return None;
        }
        let ghost k = i - start;
        assert(ds.take(k + 1).drop_last() =~= ds.take(k));
        assert(ds.take(k + 1).last() == c);
        if !over {
            acc = acc * 10 + (u - 48) as i64;
            if acc > bound {
                over = true;
            }
        } else {
            assert(digits_value(ds.take(k + 1)) >= digits_value(ds.take(k)) * 10);
        }
        i += 1;
    }
    assert(ds.take(ds.len() as int) =~= ds);
    assert(all_digits(ds));
    if over {
        return None;
    }
    if neg {
        let v = -acc;
        if v < -2147483648 {
            None
        } else {
            Some(v as i32)
        }
    } else {
        if acc > 2147483647 {
            None
        } else {
            Some(acc as i32)
        }
    }
}

} // verus!
