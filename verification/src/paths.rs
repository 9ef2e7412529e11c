//! Unix path arithmetic on strings, as `std::path::Path` performs it: the
//! components of a path, a parent folder's name, prefixes and file stems; and
//! the folder names and folder ordering that the documentation derives from them.
use vstd::prelude::*;

use crate::text::{
    all_digits, chars_of, copy_range, find_char, index_of_from, is_digit, lemma_index_of_from,
    parse_i32, parse_i32_range, same_chars, starts_with, string_of,
};

verus! {

/// A component of a Unix path (`std::path::Component` without prefixes).
pub enum PathComponent {
    RootDir,
    CurDir,
    ParentDir,
    Normal(Seq<char>),
}

/// The component that the segment `p[start..end]` stands for, if any: empty
/// segments and `.` stand for none.
pub open spec fn segment_component(seg: Seq<char>) -> Seq<PathComponent> {
    if seg.len() == 0 || seg == "."@ {
        Seq::empty()
    } else if seg == ".."@ {
        seq![PathComponent::ParentDir]
    } else {
        seq![PathComponent::Normal(seg)]
    }
}

/// The components of the `/`-separated segments of `p[start..]`.
pub open spec fn body_components(p: Seq<char>, start: int) -> Seq<PathComponent>
    decreases p.len() - start,
{
    if start < 0 || start > p.len() {
        Seq::empty()
    } else {
        let e = index_of_from(p, start, '/');
        proof {
            lemma_index_of_from(p, start, '/');
        }
        let here = segment_component(p.subrange(start, e));
        if e >= p.len() {
            here
        } else {
            here + body_components(p, e + 1)
        }
    }
}

/// A path that starts at the root.
pub open spec fn has_root(p: Seq<char>) -> bool {
    p.len() > 0 && p[0] == '/'
}

/// A relative path that names the current directory first (`.` or `./...`).
pub open spec fn starts_at_cur_dir(p: Seq<char>) -> bool {
    !has_root(p) && (p == "."@ || starts_with(p, "./"@))
}

/// `Path::components`: the root, a leading `.`, then the other segments
/// without empty ones and without `.`.
pub open spec fn path_components(p: Seq<char>) -> Seq<PathComponent> {
    (if has_root(p) {
        seq![PathComponent::RootDir]
    } else {
        Seq::empty()
    }) + (if starts_at_cur_dir(p) {
        seq![PathComponent::CurDir]
    } else {
        Seq::empty()
    }) + body_components(p, 0)
}

/// `Path::parent` on components: everything but the last component, when the
/// last one is not the root.
pub open spec fn parent_components(c: Seq<PathComponent>) -> Option<Seq<PathComponent>> {
    if c.len() > 0 && !(c.last() is RootDir) {
        Some(c.drop_last())
    } else {
        None
    }
}

/// `Path::file_name` on components: the last component, when it is a name.
pub open spec fn file_name(c: Seq<PathComponent>) -> Option<Seq<char>> {
    if c.len() > 0 && c.last() is Normal {
        Some(c.last()->Normal_0)
    } else {
        None
    }
}

/// `path.parent().file_name()`: the name of the folder that holds `p`.
pub open spec fn parent_dir_name(p: Seq<char>) -> Option<Seq<char>> {
    match parent_components(path_components(p)) {
        Some(c) => file_name(c),
        None => None,
    }
}

/// `Path::strip_prefix` on components: what follows `base` in `c`, when `base`
/// is a prefix of `c` component by component.
pub open spec fn strip_prefix(c: Seq<PathComponent>, base: Seq<PathComponent>) -> Option<
    Seq<PathComponent>,
> {
    if base.len() <= c.len() && c.take(base.len() as int) == base {
        Some(c.skip(base.len() as int))
    } else {
        None
    }
}

/// The last position before `end` that holds `c`.
pub open spec fn last_index_of(s: Seq<char>, end: int, c: char) -> Option<int>
    decreases end,
{
    if end <= 0 || end > s.len() {
        None
    } else if s[end - 1] == c {
        Some(end - 1)
    } else {
        last_index_of(s, end - 1, c)
    }
}

/// `Path::file_stem` of a file name: the part before its last dot, unless the
/// only dot it has starts it.
pub open spec fn stem_of(name: Seq<char>) -> Seq<char> {
    match last_index_of(name, name.len() as int, '.') {
        Some(d) => if d == 0 {
            name
        } else {
            name.take(d)
        },
        None => name,
    }
}

/// `Path::file_stem`: the stem of the file name of `p`.
pub open spec fn file_stem(p: Seq<char>) -> Option<Seq<char>> {
    match file_name(path_components(p)) {
        Some(name) => Some(stem_of(name)),
        None => None,
    }
}

/// A folder name without a leading `<digits>_` ordering prefix (the digits may be none).
pub open spec fn strip_order_prefix(name: Seq<char>) -> Seq<char> {
    let u = index_of_from(name, 0, '_');
    if u < name.len() && all_digits(name.take(u)) {
        name.skip(u + 1)
    } else {
        name
    }
}

/// The folder of a source file below the source root: the name of the folder
/// that directly holds it, without its ordering prefix; none for a file directly
/// in the root or outside it.
pub open spec fn module_folder(filepath: Seq<char>, root: Seq<char>) -> Option<Seq<char>> {
    match strip_prefix(path_components(filepath), path_components(root)) {
        Some(rel) => match parent_components(rel) {
            Some(parent) => if parent.len() == 0 {
                None
            } else {
                match file_name(parent) {
                    Some(name) => Some(strip_order_prefix(name)),
                    None => None,
                }
            },
            None => None,
        },
        None => None,
    }
}

/// The order of a folder in the navigation: the number before the first `_` of
/// the name of the folder that holds `filepath`, when that parses as an `i32`;
/// `i32::MAX` otherwise.
pub open spec fn folder_z_index(filepath: Seq<char>) -> i32 {
    match parent_dir_name(filepath) {
        Some(name) => {
            let u = index_of_from(name, 0, '_');
            if u < name.len() && parse_i32(name.take(u)) is Some {
                parse_i32(name.take(u))->0
            } else {
                i32::MAX
            }
        },
        None => i32::MAX,
    }
}

/// `Path::extension` of a file name: the part after its last dot, unless the
/// only dot it has starts it (or it has none).
pub open spec fn extension_of(name: Seq<char>) -> Option<Seq<char>> {
    match last_index_of(name, name.len() as int, '.') {
        Some(d) => if d == 0 {
            None
        } else {
            Some(name.skip(d + 1))
        },
        None => None,
    }
}

/// What the documentation makes of a file met below the source root.
#[derive(Debug, Clone, Copy, PartialEq, Eq, Structural)]
pub enum SourceKind {
    /// Not a Python source file (its extension is not `py`).
    NotPython,
    /// The package's entry point, `__main__.py`, which is skipped.
    EntryPoint,
    /// A Python file inside a `.venv` or `__pycache__` folder, which is skipped.
    Ignored,
    /// A Python module to document.
    Module,
}

/// A path with a `.venv` or `__pycache__` component.
pub open spec fn in_ignored_folder(p: Seq<char>) -> bool {
    exists|i: int|
        0 <= i < path_components(p).len() && (#[trigger] path_components(p)[i]
            == PathComponent::Normal(".venv"@) || path_components(p)[i] == PathComponent::Normal(
            "__pycache__"@,
        ))
}

/// The kind of the file at `p`: a Python file (extension `py`) is a module to
/// document unless it is `__main__.py` or lies in a `.venv` or `__pycache__`
/// folder.
pub open spec fn source_kind(p: Seq<char>) -> SourceKind {
    match file_name(path_components(p)) {
        Some(name) => if extension_of(name) != Some("py"@) {
            SourceKind::NotPython
        } else if name == "__main__.py"@ {
            SourceKind::EntryPoint
        } else if in_ignored_folder(p) {
            SourceKind::Ignored
        } else {
            SourceKind::Module
        },
        None => SourceKind::NotPython,
    }
}

// ---------------------------------------------------------------------------
// Executable counterparts
// ---------------------------------------------------------------------------

/// A component of a path, as the executable code holds it.
pub enum Component {
    RootDir,
    CurDir,
    ParentDir,
    Normal(Vec<char>),
}

impl View for Component {
    type V = PathComponent;

    open spec fn view(&self) -> PathComponent {
        match self {
            Component::RootDir => PathComponent::RootDir,
            Component::CurDir => PathComponent::CurDir,
            Component::ParentDir => PathComponent::ParentDir,
            Component::Normal(n) => PathComponent::Normal(n@),
        }
    }
}

pub open spec fn components_view(c: Seq<Component>) -> Seq<PathComponent> {
    c.map_values(|x: Component| x@)
}

fn same_component(a: &Component, b: &Component) -> (r: bool)
    ensures
        r == (a@ == b@),
{
    match (a, b) {
        (Component::RootDir, Component::RootDir) => true,
        (Component::CurDir, Component::CurDir) => true,
        (Component::ParentDir, Component::ParentDir) => true,
        (Component::Normal(x), Component::Normal(y)) => same_chars(x, y),
        _ => false,
    }
}

/// The components of the path `p`.
pub fn components_of(p: &[char]) -> (r: Vec<Component>)
    ensures
        components_view(r@) == path_components(p@),
{
    proof {
        reveal_strlit(".");
        reveal_strlit("..");
        reveal_strlit("./");
    }
    let dot = chars_of(".");
    let dotdot = chars_of("..");
    let mut out: Vec<Component> = Vec::new();
    let rooted = p.len() > 0 && p[0] == '/';
    if rooted {
        out.push(Component::RootDir);
    }
    let cur = !rooted && ((p.len() == 1 && p[0] == '.') || (p.len() >= 2 && p[0] == '.' && p[1]
        == '/'));
    proof {
        if p@.len() == 1 && p@[0] == '.' {
            assert(p@ =~= "."@);
        }
        if p@ == "."@ {
            assert(p@.len() == 1);
        }
        if p@.len() >= 2 && p@[0] == '.' && p@[1] == '/' {
            assert(p@.take(2) =~= "./"@);
        }
        if starts_with(p@, "./"@) {
            assert(p@.take(2)[0] == '.' && p@.take(2)[1] == '/');
        }
    }
    if cur {
        out.push(Component::CurDir);
    }
    let ghost head = components_view(out@);
    assert(head == (if has_root(p@) {
        seq![PathComponent::RootDir]
    } else {
        Seq::<PathComponent>::empty()
    }) + (if starts_at_cur_dir(p@) {
        seq![PathComponent::CurDir]
    } else {
        Seq::<PathComponent>::empty()
    }));
    let mut start: usize = 0;
    loop
        invariant_except_break
            head + body_components(p@, 0) == components_view(out@) + body_components(
                p@,
                start as int,
            ),
        invariant
            start <= p@.len(),
            dot@ == "."@,
            dotdot@ == ".."@,
        ensures
            head + body_components(p@, 0) == components_view(out@),
        decreases p@.len() - start,
    {
        let e = find_char(p, start, '/');
        proof {
            lemma_index_of_from(p@, start as int, '/');
        }
        let seg = copy_range(p, start, e);
        let ghost before = out@;
        if seg.len() == 0 || same_chars(&seg, &dot) {
        } else if same_chars(&seg, &dotdot) {
            out.push(Component::ParentDir);
        } else {
            out.push(Component::Normal(seg));
        }
        assert(components_view(out@) =~= components_view(before) + segment_component(
            p@.subrange(start as int, e as int),
        ));
        if e == p.len() {
            assert(body_components(p@, start as int) == segment_component(
                p@.subrange(start as int, e as int),
            ));
            break ;
        }
        start = e + 1;
    }
    out
}

/// The stem of a file name.
fn stem(name: &[char]) -> (r: Vec<char>)
    ensures
        r@ == stem_of(name@),
{
    let mut i = name.len();
    while i > 0 && name[i - 1] != '.'
        invariant
            i <= name@.len(),
            last_index_of(name@, name@.len() as int, '.') == last_index_of(name@, i as int, '.'),
        decreases i,
    {
        i -= 1;
    }
    if i <= 1 {
        copy_range(name, 0, name.len())
    } else {
        copy_range(name, 0, i - 1)
    }
}

/// The module name of a source file: the stem of its file name, if it has one.
pub fn module_name_of(filepath: &str) -> (r: Option<String>)
    ensures
        r is Some <==> file_stem(filepath@) is Some,
        r matches Some(n) ==> n@ == file_stem(filepath@)->0,
{
    let p = chars_of(filepath);
    let comps = components_of(&p);
    let n = comps.len();
    if n == 0 {
        return None;
    }
    match &comps[n - 1] {
        Component::Normal(name) => {
            let s = stem(name);
            Some(string_of(&s))
        },
        _ => None,
    }
}

/// The extension of a file name.
fn extension(name: &[char]) -> (r: Option<Vec<char>>)
    ensures
        r is Some <==> extension_of(name@) is Some,
        r matches Some(e) ==> e@ == extension_of(name@)->0,
{
    let mut i = name.len();
    while i > 0 && name[i - 1] != '.'
        invariant
            i <= name@.len(),
            last_index_of(name@, name@.len() as int, '.') == last_index_of(name@, i as int, '.'),
        decreases i,
    {
        i -= 1;
    }
    if i <= 1 {
        None
    } else {
        let e = copy_range(name, i, name.len());
        assert(e@ =~= name@.skip(i as int));
        Some(e)
    }
}

/// What the documentation makes of the file at `path` (see [`source_kind`]).
pub fn classify_source(path: &str) -> (r: SourceKind)
    ensures
        r == source_kind(path@),
{
    proof {
        reveal_strlit("py");
        reveal_strlit("__main__.py");
        reveal_strlit(".venv");
        reveal_strlit("__pycache__");
    }
    let p = chars_of(path);
    let comps = components_of(&p);
    let ghost cv = components_view(comps@);
    let n = comps.len();
    if n == 0 {
        return SourceKind::NotPython;
    }
    let name = match &comps[n - 1] {
        Component::Normal(name) => name,
        _ => {
            return SourceKind::NotPython;
        },
    };
    assert(file_name(cv) == Some(name@));
    let py = chars_of("py");
    match extension(name) {
        Some(ext) => {
            if !same_chars(&ext, &py) {
                return SourceKind::NotPython;
            }
        },
        None => {
            return SourceKind::NotPython;
        },
    }
    let main = chars_of("__main__.py");
    if same_chars(name, &main) {
        return SourceKind::EntryPoint;
    }
    let venv = chars_of(".venv");
    let cache = chars_of("__pycache__");
    let mut i: usize = 0;
    while i < n
        invariant
            i <= n,
            n == comps@.len(),
            cv == components_view(comps@),
            cv == path_components(path@),
            venv@ == ".venv"@,
            cache@ == "__pycache__"@,
            file_name(cv) == Some(name@),
            extension_of(name@) == Some("py"@),
            name@ != "__main__.py"@,
            forall|j: int|
                0 <= j < i ==> cv[j] != PathComponent::Normal(".venv"@) && cv[j]
                    != PathComponent::Normal("__pycache__"@),
        decreases n - i,
    {
        match &comps[i] {
            Component::Normal(x) => {
                if same_chars(x, &venv) || same_chars(x, &cache) {
                    assert(path_components(path@)[i as int] == PathComponent::Normal(x@));
                    return SourceKind::Ignored;
                }
            },
            _ => {},
        }
        i += 1;
    }
    SourceKind::Module
}

/// The file name of a path (`Path::file_name`): its last component, when that
/// is a name.
pub fn file_name_of(path: &str) -> (r: Option<String>)
    ensures
        r is Some <==> file_name(path_components(path@)) is Some,
        r matches Some(n) ==> n@ == file_name(path_components(path@))->0,
{
    let p = chars_of(path);
    let comps = components_of(&p);
    let n = comps.len();
    if n == 0 {
        return None;
    }
    match &comps[n - 1] {
        Component::Normal(name) => Some(string_of(name)),
        _ => None,
    }
}

/// `name` without a leading `<digits>_` prefix.
fn strip_prefix_digits(name: &[char]) -> (r: Vec<char>)
    ensures
        r@ == strip_order_prefix(name@),
{
    let u = find_char(name, 0, '_');
    proof {
        lemma_index_of_from(name@, 0, '_');
    }
    if u == name.len() {
        assert(name@.subrange(0, name@.len() as int) =~= name@);
        return copy_range(name, 0, name.len());
    }
    let mut i: usize = 0;
    while i < u
        invariant
            u < name@.len(),
            u == index_of_from(name@, 0, '_'),
            i <= u,
            forall|j: int| 0 <= j < i ==> is_digit(#[trigger] name@.take(u as int)[j]),
        decreases u - i,
    {
        let c = name[i] as u32;
        if c < 48 || c > 57 {
            assert(!is_digit(name@.take(u as int)[i as int]));
            assert(!all_digits(name@.take(u as int)));
            assert(name@.subrange(0, name@.len() as int) =~= name@);
            return copy_range(name, 0, name.len());
        }
        i += 1;
    }
    copy_range(name, u + 1, name.len())
}

/// The folder of a source file below the source root (see [`module_folder`]).
pub fn folder_of(filepath: &str, root_dir: &str) -> (r: Option<String>)
    ensures
        r is Some <==> module_folder(filepath@, root_dir@) is Some,
        r matches Some(f) ==> f@ == module_folder(filepath@, root_dir@)->0,
{
    let p = chars_of(filepath);
    let b = chars_of(root_dir);
    let pc = components_of(&p);
    let bc = components_of(&b);
    let ghost pv = components_view(pc@);
    let ghost bv = components_view(bc@);
    if bc.len() > pc.len() {
        return None;
    }
    let mut i: usize = 0;
    while i < bc.len()
        invariant
            i <= bc@.len() <= pc@.len(),
            pv == components_view(pc@),
            pv == path_components(filepath@),
            bv == path_components(root_dir@),
            bv == components_view(bc@),
            forall|j: int| 0 <= j < i ==> pv[j] == bv[j],
        decreases bc@.len() - i,
    {
        if !same_component(&pc[i], &bc[i]) {
            assert(pv.take(bv.len() as int)[i as int] != bv[i as int]);
            assert(strip_prefix(pv, bv) is None);
            return None;
        }
        i += 1;
    }
    assert(pv.take(bv.len() as int) =~= bv);
    let rel_len = pc.len() - bc.len();
    let ghost rel = pv.skip(bv.len() as int);
    assert(rel.len() == rel_len);
    if rel_len == 0 {
        return None;
    }
    match &pc[pc.len() - 1] {
        Component::RootDir => {
            assert(rel.last() == pv[pv.len() - 1]);
            return None;
        },
        _ => {},
    }
    assert(rel.last() == pv[pv.len() - 1]);
    if rel_len == 1 {
        return None;
    }
    assert(rel.drop_last().last() == pv[pv.len() - 2]);
    match &pc[pc.len() - 2] {
        Component::Normal(name) => {
            let s = strip_prefix_digits(name);
            Some(string_of(&s))
        },
        _ => None,
    }
}

/// The order of the folder that holds `filepath` (see [`folder_z_index`]).
pub fn folder_z_index_of(filepath: &str) -> (z: i32)
    ensures
        z == folder_z_index(filepath@),
{
    let p = chars_of(filepath);
    let comps = components_of(&p);
    let ghost cv = components_view(comps@);
    let n = comps.len();
    if n < 2 {
        return i32::MAX;
    }
    match &comps[n - 1] {
        Component::RootDir => {
            return i32::MAX;
        },
        _ => {},
    }
    assert(cv.drop_last().last() == cv[n - 2]);
    match &comps[n - 2] {
        Component::Normal(name) => {
            let u = find_char(name, 0, '_');
            proof {
                lemma_index_of_from(name@, 0, '_');
            }
            if u == name.len() {
                return i32::MAX;
            }
            assert(name@.subrange(0, u as int) =~= name@.take(u as int));
            match parse_i32_range(name, 0, u) {
                Some(z) => z,
                None => i32::MAX,
            }
        },
        _ => i32::MAX,
    }
}

// ---------------------------------------------------------------------------
// Laws
// ---------------------------------------------------------------------------

/// A folder named `d_rest`, where `d` is ASCII digits (maybe none) with no
/// underscore, shows as `rest`: everything after the first underscore, other
/// underscores included. A name without an underscore, or whose part before the
/// first underscore is not all digits, shows as it is.
pub proof fn lemma_order_prefix_stripped(d: Seq<char>, rest: Seq<char>, name: Seq<char>)
    ensures
        all_digits(d) ==> strip_order_prefix(d + "_"@ + rest) == rest,
        !name.contains('_') ==> strip_order_prefix(name) == name,
        (forall|j: int| 0 <= j < d.len() ==> d[j] != '_') && !all_digits(d) ==> strip_order_prefix(
            d + "_"@ + rest,
        ) == d + "_"@ + rest,
{
    reveal_strlit("_");
    let t = d + "_"@ + rest;
    lemma_index_of_from(t, 0, '_');
    let u = index_of_from(t, 0, '_');
    if all_digits(d) || ((forall|j: int| 0 <= j < d.len() ==> d[j] != '_') && !all_digits(d)) {
        assert(t[d.len() as int] == '_');
        if u < d.len() {
            assert(t[u] == d[u]);
            if all_digits(d) {
                assert(is_digit(d[u]));
            }
        }
        assert(u == d.len());
        assert(t.take(u) =~= d);
        assert(t.skip(u + 1) =~= rest);
    }
    lemma_index_of_from(name, 0, '_');
    if index_of_from(name, 0, '_') < name.len() {
        assert(name.contains(name[index_of_from(name, 0, '_')]));
    }
}

} // verus!
