//! The site's navigation: ordering modules, grouping them by folder, and
//! choosing the page template of each module.
use vstd::prelude::*;

use crate::docstring::{extract_z_index_and_clean, without_z_directives, z_index_of};
use crate::models::{ModuleView, PythonModule, opt_view};
use crate::paths::{folder_z_index, folder_z_index_of};
use crate::text::{
    chars_of, lines, run_end, starts_with, starts_with_at, str_eq, string_views, trim_start,
    TrimSet,
};

verus! {

// ---------------------------------------------------------------------------
// Orders
// ---------------------------------------------------------------------------

/// `a < b` in the order of Rust strings: lexicographic by code point.
pub open spec fn seq_lt(a: Seq<char>, b: Seq<char>) -> bool
    decreases a.len(),
{
    if a.len() == 0 {
        b.len() > 0
    } else if b.len() == 0 {
        false
    } else if a[0] != b[0] {
        (a[0] as u32) < (b[0] as u32)
    } else {
        seq_lt(a.drop_first(), b.drop_first())
    }
}

/// `a < b` in the order of `Option<String>`: nothing first, then by the strings.
pub open spec fn opt_lt(a: Option<Seq<char>>, b: Option<Seq<char>>) -> bool {
    match (a, b) {
        (None, Some(_)) => true,
        (Some(x), Some(y)) => seq_lt(x, y),
        _ => false,
    }
}

/// Modules are ordered by z-index, then by name.
pub open spec fn module_lt(a: ModuleView, b: ModuleView) -> bool {
    a.z_index < b.z_index || (a.z_index == b.z_index && seq_lt(a.name, b.name))
}

/// `x` inserted into `s` after every element that `x` is not less than, counted
/// from the back (where a stable insertion sort puts it).
pub open spec fn insert_sorted<T>(s: Seq<T>, x: T, lt: spec_fn(T, T) -> bool) -> Seq<T>
    decreases s.len(),
{
    if s.len() == 0 {
        seq![x]
    } else if lt(x, s.last()) {
        insert_sorted(s.drop_last(), x, lt).push(s.last())
    } else {
        s.push(x)
    }
}

/// `s` sorted by `lt`, keeping equal elements in their order (`slice::sort_by`).
pub open spec fn sorted_by<T>(s: Seq<T>, lt: spec_fn(T, T) -> bool) -> Seq<T>
    decreases s.len(),
{
    if s.len() == 0 {
        Seq::empty()
    } else {
        insert_sorted(sorted_by(s.drop_last(), lt), s.last(), lt)
    }
}

pub open spec fn module_order() -> spec_fn(ModuleView, ModuleView) -> bool {
    |a: ModuleView, b: ModuleView| module_lt(a, b)
}

pub open spec fn module_views(ms: Seq<PythonModule>) -> Seq<ModuleView> {
    ms.map_values(|m: PythonModule| m@)
}

/// Whether `a` comes before `b` in the order of strings.
pub fn str_lt(a: &str, b: &str) -> (r: bool)
    ensures
        r == seq_lt(a@, b@),
{
    let x = chars_of(a);
    let y = chars_of(b);
    let mut i: usize = 0;
    assert(x@.skip(0) =~= x@);
    assert(y@.skip(0) =~= y@);
    while i < x.len() && i < y.len() && x[i] == y[i]
        invariant
            i <= x@.len(),
            i <= y@.len(),
            seq_lt(x@, y@) == seq_lt(x@.skip(i as int), y@.skip(i as int)),
        decreases x@.len() - i,
    {
        assert(x@.skip(i as int).drop_first() =~= x@.skip(i + 1));
        assert(y@.skip(i as int).drop_first() =~= y@.skip(i + 1));
        i += 1;
    }
    if i == x.len() {
        i < y.len()
    } else if i == y.len() {
        false
    } else {
        (x[i] as u32) < (y[i] as u32)
    }
}

/// Whether module `a` comes before module `b`.
pub fn module_before(a: &PythonModule, b: &PythonModule) -> (r: bool)
    ensures
        r == module_lt(a@, b@),
{
    a.z_index < b.z_index || (a.z_index == b.z_index && str_lt(a.name.as_str(), b.name.as_str()))
}

/// Moving `x` past the elements it is less than, one by one from the back.
proof fn lemma_insert_step<T>(s: Seq<T>, x: T, lt: spec_fn(T, T) -> bool, p: int)
    requires
        0 < p <= s.len(),
        lt(x, s[p - 1]),
    ensures
        insert_sorted(s.take(p), x, lt) + s.skip(p) == insert_sorted(s.take(p - 1), x, lt)
            + s.skip(p - 1),
{
    assert(s.take(p).drop_last() =~= s.take(p - 1));
    assert(s.take(p).last() == s[p - 1]);
    assert(insert_sorted(s.take(p - 1), x, lt).push(s[p - 1]) + s.skip(p) =~= insert_sorted(
        s.take(p - 1),
        x,
        lt,
    ) + s.skip(p - 1));
}

/// Inserts `m` into the ordered modules `out` where a stable sort puts it.
fn insert_module(out: &mut Vec<PythonModule>, m: PythonModule)
    ensures
        module_views(final(out)@) == insert_sorted(module_views(old(out)@), m@, module_order()),
{
    let ghost s = module_views(out@);
    let mut p = out.len();
    assert(s.take(p as int) =~= s);
    assert(s.skip(p as int) =~= Seq::<ModuleView>::empty());
    assert(insert_sorted(s, m@, module_order()) =~= insert_sorted(s.take(p as int), m@, module_order()) + s.skip(p as int));
    while p > 0 && module_before(&m, &out[p - 1])
        invariant
            p <= out@.len(),
            s == module_views(out@),
            out@ == old(out)@,
            insert_sorted(s, m@, module_order()) == insert_sorted(s.take(p as int), m@, module_order())
                + s.skip(p as int),
        decreases p,
    {
        proof {
            assert(s[p - 1] == out@[p - 1]@);
            lemma_insert_step(s, m@, module_order(), p as int);
        }
        p -= 1;
    }
    proof {
        if p > 0 {
            assert(s.take(p as int).last() == s[p - 1]);
        }
        assert(insert_sorted(s.take(p as int), m@, module_order()) =~= s.take(p as int).push(m@));
    }
    let ghost mv = m@;
    out.insert(p, m);
    assert(module_views(out@) =~= s.take(p as int).push(mv) + s.skip(p as int));
}

/// Orders modules by z-index, then by name; modules that tie keep their order.
pub fn sort_modules(modules: Vec<PythonModule>) -> (r: Vec<PythonModule>)
    ensures
        module_views(r@) == sorted_by(module_views(modules@), module_order()),
{
    let mut rest = modules;
    let n0 = rest.len();
    let ghost all = module_views(rest@);
    let mut out: Vec<PythonModule> = Vec::new();
    let mut k: usize = 0;
    while rest.len() > 0
        invariant
            k <= all.len(),
            all.len() == n0,
            module_views(rest@) == all.skip(k as int),
            module_views(out@) == sorted_by(all.take(k as int), module_order()),
        decreases rest@.len(),
    {
        assert(module_views(rest@).len() == rest@.len());
        assert(k < all.len());
        let ghost old_rest = rest@;
        let m = rest.remove(0);
        assert(rest@ =~= old_rest.skip(1));
        proof {
            assert(all.skip(k as int)[0] == m@);
            assert(all.take(k + 1).drop_last() =~= all.take(k as int));
            assert(all.take(k + 1).last() == m@);
            assert(module_views(rest@) =~= module_views(old_rest).skip(1));
            assert(module_views(rest@) =~= all.skip(k + 1));
        }
        insert_module(&mut out, m);
        k += 1;
    }
    assert(all.take(k as int) =~= all);
    out
}

// ---------------------------------------------------------------------------
// The z-index directive of a module
// ---------------------------------------------------------------------------

/// The docstring a module is read with: its docstring, or nothing.
pub open spec fn raw_docstring(m: ModuleView) -> Seq<char> {
    match m.docstring {
        Some(d) => d,
        None => Seq::empty(),
    }
}

/// A module after its z-index directives are applied: the z-index they set,
/// and the docstring, if there is one, without them.
pub open spec fn with_z_index(m: ModuleView) -> ModuleView {
    let raw = raw_docstring(m);
    ModuleView {
        z_index: z_index_of(lines(raw), lines(raw).len() as int),
        docstring: match m.docstring {
            Some(_) => Some(without_z_directives(raw)),
            None => None,
        },
        ..m
    }
}

impl PythonModule {
    /// Applies the `#pd-z-index:` directives of the module docstring: sets the
    /// z-index (`i32::MAX` when none gives a valid number) and removes them
    /// from the docstring.
    pub fn apply_z_index(&mut self)
        ensures
            final(self)@ == with_z_index(old(self)@),
    {
        let raw = match &self.docstring {
            Some(d) => d.clone(),
            None => String::new(),
        };
        let (z, cleaned) = extract_z_index_and_clean(raw.as_str());
        self.z_index = z;
        if self.docstring.is_some() {
            self.docstring = Some(cleaned);
        }
    }
}

// ---------------------------------------------------------------------------
// Pages of prose
// ---------------------------------------------------------------------------

/// A module without classes or functions whose (rendered) docstring begins
/// with `#pd-write`: it is shown as a page of prose.
pub open spec fn is_doc_only(m: ModuleView) -> bool {
    &&& m.classes.len() == 0
    &&& m.functions.len() == 0
    &&& m.docstring matches Some(d) && starts_with(trim_start(d), "#pd-write"@)
}

/// The names of the prose modules among `ms[0..n]`, in order.
pub open spec fn doc_only_names(ms: Seq<ModuleView>, n: int) -> Seq<Seq<char>>
    decreases n,
{
    if n <= 0 {
        Seq::empty()
    } else if is_doc_only(ms[n - 1]) {
        doc_only_names(ms, n - 1).push(ms[n - 1].name)
    } else {
        doc_only_names(ms, n - 1)
    }
}

/// Whether `m` is a page of prose.
pub fn module_is_doc_only(m: &PythonModule) -> (r: bool)
    ensures
        r == is_doc_only(m@),
{
    if m.classes.len() > 0 || m.functions.len() > 0 {
        return false;
    }
    match &m.docstring {
        Some(doc) => {
            proof {
                reveal_strlit("#pd-write");
            }
            let chars = chars_of(doc.as_str());
            let marker = chars_of("#pd-write");
            let k = run_end(&chars, 0, TrimSet::Whitespace);
            starts_with_at(&chars, k, &marker)
        },
        None => false,
    }
}

/// The names of the modules shown as pages of prose, in order.
pub fn doc_only_module_names(modules: &Vec<PythonModule>) -> (r: Vec<String>)
    ensures
        string_views(r@) == doc_only_names(module_views(modules@), modules@.len() as int),
{
    let ghost mv = module_views(modules@);
    let mut r: Vec<String> = Vec::new();
    let n = modules.len();
    let mut i: usize = 0;
    while i < n
        invariant
            i <= n,
            n == modules@.len(),
            mv == module_views(modules@),
            string_views(r@) == doc_only_names(mv, i as int),
        decreases n - i,
    {
        assert(mv[i as int] == modules@[i as int]@);
        if module_is_doc_only(&modules[i]) {
            let ghost before = r@;
            let name = modules[i].name.clone();
            r.push(name);
            assert(string_views(r@) =~= string_views(before).push(name@));
        }
        i += 1;
    }
    r
}

/// The template of a module's page: `document.html` for a page of prose,
/// `module.html` otherwise.
pub open spec fn page_template(name: Seq<char>, doc_only: Seq<Seq<char>>) -> Seq<char> {
    if doc_only.contains(name) {
        "document.html"@
    } else {
        "module.html"@
    }
}

/// The template of the page of the module named `name`, given the names of the
/// pages of prose.
pub fn template_for(name: &str, doc_only: &Vec<String>) -> (r: String)
    ensures
        r@ == page_template(name@, string_views(doc_only@)),
{
    let ghost names = string_views(doc_only@);
    let mut i: usize = 0;
    while i < doc_only.len()
        invariant
            i <= doc_only@.len(),
            names == string_views(doc_only@),
            forall|j: int| 0 <= j < i ==> names[j] != name@,
        decreases doc_only@.len() - i,
    {
        if str_eq(doc_only[i].as_str(), name) {
            assert(names[i as int] == name@);
            return "document.html".to_string();
        }
        i += 1;
    }
    "module.html".to_string()
}

// ---------------------------------------------------------------------------
// Folder groups
// ---------------------------------------------------------------------------

/// The modules of one folder, as the navigation shows them.
#[derive(Debug, Clone)]
pub struct NavGroup {
    /// The folder's name; none for the modules in the source root.
    pub name: Option<String>,
    pub modules: Vec<PythonModule>,
}

/// A group with its parts as characters.
pub struct GroupView {
    pub name: Option<Seq<char>>,
    pub modules: Seq<ModuleView>,
}

impl View for NavGroup {
    type V = GroupView;

    open spec fn view(&self) -> GroupView {
        GroupView { name: opt_view(self.name), modules: module_views(self.modules@) }
    }
}

pub open spec fn group_views(gs: Seq<NavGroup>) -> Seq<GroupView> {
    gs.map_values(|g: NavGroup| g@)
}

/// A group while it is built: the order of its folder, taken from its first
/// module, with its name and modules.
pub struct GroupEntry {
    pub z: i32,
    pub name: Option<Seq<char>>,
    pub modules: Seq<ModuleView>,
}

/// The order of the folder that holds a module; `i32::MAX` for a module in the
/// source root.
pub open spec fn module_folder_z(m: ModuleView) -> i32 {
    if m.folder is Some {
        folder_z_index(m.filepath)
    } else {
        i32::MAX
    }
}

/// The first group, from `i` on, whose folder is `f`, or `es.len()`.
pub open spec fn group_index_from(es: Seq<GroupEntry>, i: int, f: Option<Seq<char>>) -> int
    decreases es.len() - i,
{
    if 0 <= i < es.len() {
        if es[i].name == f {
            i
        } else {
            group_index_from(es, i + 1, f)
        }
    } else {
        es.len() as int
    }
}

/// Adds a module to the group of its folder, opening the group when it is new.
pub open spec fn add_to_groups(es: Seq<GroupEntry>, m: ModuleView) -> Seq<GroupEntry> {
    let k = group_index_from(es, 0, m.folder);
    if 0 <= k < es.len() {
        es.update(k, GroupEntry { modules: es[k].modules.push(m), ..es[k] })
    } else {
        es.push(GroupEntry { z: module_folder_z(m), name: m.folder, modules: seq![m] })
    }
}

/// The groups of `ms[0..n]`, in the order their folders first appear.
pub open spec fn group_entries(ms: Seq<ModuleView>, n: int) -> Seq<GroupEntry>
    decreases n,
{
    if n <= 0 {
        Seq::empty()
    } else {
        add_to_groups(group_entries(ms, n - 1), ms[n - 1])
    }
}

/// A group with its modules in order.
pub open spec fn sort_entry(e: GroupEntry) -> GroupEntry {
    GroupEntry { modules: sorted_by(e.modules, module_order()), ..e }
}

/// Where a group goes: the modules of the source root by the z-index of their
/// first module, a folder by its own order.
pub open spec fn actual_z(e: GroupEntry) -> i32 {
    if e.name is None {
        if e.modules.len() > 0 {
            e.modules[0].z_index
        } else {
            i32::MAX
        }
    } else {
        e.z
    }
}

/// Groups are ordered by where they go, then by folder name (the source root first).
pub open spec fn group_lt(a: GroupEntry, b: GroupEntry) -> bool {
    actual_z(a) < actual_z(b) || (actual_z(a) == actual_z(b) && opt_lt(a.name, b.name))
}

pub open spec fn group_order() -> spec_fn(GroupEntry, GroupEntry) -> bool {
    |a: GroupEntry, b: GroupEntry| group_lt(a, b)
}

/// The navigation of the ordered modules `ms`: one group per folder, each
/// with its modules in order, the groups in order.
pub open spec fn nav_groups(ms: Seq<ModuleView>) -> Seq<GroupView> {
    sorted_by(group_entries(ms, ms.len() as int).map_values(|e: GroupEntry| sort_entry(e)), group_order()).map_values(
        |e: GroupEntry| GroupView { name: e.name, modules: e.modules },
    )
}

/// A group while it is built.
struct FolderGroup {
    z: i32,
    group: NavGroup,
}

impl View for FolderGroup {
    type V = GroupEntry;

    closed spec fn view(&self) -> GroupEntry {
        GroupEntry { z: self.z, name: opt_view(self.group.name), modules: module_views(self.group.modules@) }
    }
}

spec fn entry_views(es: Seq<FolderGroup>) -> Seq<GroupEntry> {
    es.map_values(|e: FolderGroup| e@)
}

/// Whether two folders are the same.
fn same_folder(a: &Option<String>, b: &Option<String>) -> (r: bool)
    ensures
        r == (opt_view(*a) == opt_view(*b)),
{
    match (a, b) {
        (None, None) => true,
        (Some(x), Some(y)) => str_eq(x.as_str(), y.as_str()),
        _ => false,
    }
}

/// Whether folder `a` comes before folder `b`.
fn folder_before(a: &Option<String>, b: &Option<String>) -> (r: bool)
    ensures
        r == opt_lt(opt_view(*a), opt_view(*b)),
{
    match (a, b) {
        (None, Some(_)) => true,
        (Some(x), Some(y)) => str_lt(x.as_str(), y.as_str()),
        _ => false,
    }
}

fn actual_z_of(e: &FolderGroup) -> (z: i32)
    ensures
        z == actual_z(e@),
{
    if e.group.name.is_none() {
        if e.group.modules.len() > 0 {
            e.group.modules[0].z_index
        } else {
            i32::MAX
        }
    } else {
        e.z
    }
}

fn group_before(a: &FolderGroup, b: &FolderGroup) -> (r: bool)
    ensures
        r == group_lt(a@, b@),
{
    let za = actual_z_of(a);
    let zb = actual_z_of(b);
    za < zb || (za == zb && folder_before(&a.group.name, &b.group.name))
}

/// Adds `m` to the group of its folder.
fn add_module(groups: &mut Vec<FolderGroup>, m: PythonModule)
    ensures
        entry_views(final(groups)@) == add_to_groups(entry_views(old(groups)@), m@),
{
    let ghost es = entry_views(groups@);
    let n = groups.len();
    let mut k: usize = 0;
    while k < n && !same_folder(&groups[k].group.name, &m.folder)
        invariant
            k <= n,
            n == groups@.len(),
            es == entry_views(groups@),
            group_index_from(es, 0, m@.folder) == group_index_from(es, k as int, m@.folder),
        decreases n - k,
    {
        proof {
            assert(es[k as int].name == opt_view(groups@[k as int].group.name));
        }
        k += 1;
    }
    proof {
        if k < n {
            assert(es[k as int].name == opt_view(groups@[k as int].group.name));
        }
    }
    if k < n {
        let mut g = groups.remove(k);
        let ghost old_g = g@;
        let ghost mv = m@;
        g.group.modules.push(m);
        proof {
            assert(g@ == GroupEntry { modules: old_g.modules.push(mv), ..old_g }) by {
                assert(module_views(g.group.modules@) =~= old_g.modules.push(mv));
            }
        }
        groups.insert(k, g);
        assert(entry_views(groups@) =~= es.update(k as int, g@));
    } else {
        let z = if m.folder.is_some() {
            folder_z_index_of(m.filepath.as_str())
        } else {
            i32::MAX
        };
        let name = m.folder.clone();
        let ghost mv = m@;
        let mut mods: Vec<PythonModule> = Vec::new();
        mods.push(m);
        let g = FolderGroup { z, group: NavGroup { name, modules: mods } };
        proof {
            assert(module_views(mods@) =~= seq![mv]);
        }
        groups.push(g);
        assert(entry_views(groups@) =~= es.push(g@));
    }
}

/// Inserts `g` into the ordered groups `out` where a stable sort puts it.
fn insert_group(out: &mut Vec<FolderGroup>, g: FolderGroup)
    ensures
        entry_views(final(out)@) == insert_sorted(entry_views(old(out)@), g@, group_order()),
{
    let ghost s = entry_views(out@);
    let mut p = out.len();
    assert(s.take(p as int) =~= s);
    assert(s.skip(p as int) =~= Seq::<GroupEntry>::empty());
    assert(insert_sorted(s, g@, group_order()) =~= insert_sorted(s.take(p as int), g@, group_order()) + s.skip(p as int));
    while p > 0 && group_before(&g, &out[p - 1])
        invariant
            p <= out@.len(),
            s == entry_views(out@),
            out@ == old(out)@,
            insert_sorted(s, g@, group_order()) == insert_sorted(s.take(p as int), g@, group_order())
                + s.skip(p as int),
        decreases p,
    {
        proof {
            assert(s[p - 1] == out@[p - 1]@);
            lemma_insert_step(s, g@, group_order(), p as int);
        }
        p -= 1;
    }
    proof {
        if p > 0 {
            assert(s.take(p as int).last() == s[p - 1]);
        }
        assert(insert_sorted(s.take(p as int), g@, group_order()) =~= s.take(p as int).push(g@));
    }
    let ghost gv = g@;
    out.insert(p, g);
    assert(entry_views(out@) =~= s.take(p as int).push(gv) + s.skip(p as int));
}

/// Groups the ordered modules by folder for the navigation: one group per
/// folder, each with its modules in order; the groups ordered by the number
/// before `_` in the folder's directory name (the source root's modules by the
/// z-index of their first module), then by folder name.
pub fn build_nav_groups(modules: Vec<PythonModule>) -> (r: Vec<NavGroup>)
    ensures
        group_views(r@) == nav_groups(module_views(modules@)),
{
    let ghost ms = module_views(modules@);
    let mut rest = modules;
    let n0 = rest.len();
    let mut groups: Vec<FolderGroup> = Vec::new();
    let mut k: usize = 0;
    while rest.len() > 0
        invariant
            k <= ms.len(),
            ms.len() == n0,
            module_views(rest@) == ms.skip(k as int),
            entry_views(groups@) == group_entries(ms, k as int),
        decreases rest@.len(),
    {
        assert(module_views(rest@).len() == rest@.len());
        let ghost old_rest = rest@;
        let m = rest.remove(0);
        proof {
            assert(rest@ =~= old_rest.skip(1));
            assert(ms.skip(k as int)[0] == m@);
            assert(module_views(rest@) =~= module_views(old_rest).skip(1));
            assert(module_views(rest@) =~= ms.skip(k + 1));
        }
        add_module(&mut groups, m);
        k += 1;
    }
    assert(ms.skip(k as int).len() == 0);
    let ghost entries = group_entries(ms, ms.len() as int);
    let ghost sorted_entries = entries.map_values(|e: GroupEntry| sort_entry(e));
    let n = groups.len();
    let mut ordered: Vec<FolderGroup> = Vec::new();
    let mut j: usize = 0;
    while groups.len() > 0
        invariant
            j <= n,
            entries.len() == n,
            sorted_entries == entries.map_values(|e: GroupEntry| sort_entry(e)),
            entry_views(groups@) == entries.skip(j as int),
            entry_views(ordered@) == sorted_by(sorted_entries.take(j as int), group_order()),
        decreases groups@.len(),
    {
        assert(entry_views(groups@).len() == groups@.len());
        let ghost old_groups = groups@;
        let g = groups.remove(0);
        let ghost gv = g@;
        proof {
            assert(groups@ =~= old_groups.skip(1));
            assert(entries.skip(j as int)[0] == gv);
            assert(entry_views(groups@) =~= entry_views(old_groups).skip(1));
        }
        let FolderGroup { z, group: NavGroup { name, modules } } = g;
        let sorted = sort_modules(modules);
        let g2 = FolderGroup { z, group: NavGroup { name, modules: sorted } };
        proof {
            assert(g2@ == sort_entry(gv));
            assert(sorted_entries.take(j + 1).drop_last() =~= sorted_entries.take(j as int));
            assert(sorted_entries.take(j + 1).last() == g2@);
        }
        insert_group(&mut ordered, g2);
        j += 1;
    }
    assert(sorted_entries.take(j as int) =~= sorted_entries);
    let ghost final_entries = entry_views(ordered@);
    let mut r: Vec<NavGroup> = Vec::new();
    let m = ordered.len();
    let mut i: usize = 0;
    while ordered.len() > 0
        invariant
            i <= m,
            final_entries.len() == m,
            entry_views(ordered@) == final_entries.skip(i as int),
            group_views(r@) == final_entries.take(i as int).map_values(
                |e: GroupEntry| GroupView { name: e.name, modules: e.modules },
            ),
        decreases ordered@.len(),
    {
        assert(entry_views(ordered@).len() == ordered@.len());
        let ghost old_ordered = ordered@;
        let g = ordered.remove(0);
        let ghost gv = g@;
        proof {
            assert(ordered@ =~= old_ordered.skip(1));
            assert(final_entries.skip(i as int)[0] == gv);
            assert(entry_views(ordered@) =~= entry_views(old_ordered).skip(1));
        }
        let ghost before = r@;
        r.push(g.group);
        proof {
            assert(final_entries.take(i + 1) =~= final_entries.take(i as int).push(gv));
            assert(group_views(r@) =~= group_views(before).push(
                GroupView { name: gv.name, modules: gv.modules },
            ));
            assert(group_views(r@) =~= final_entries.take(i + 1).map_values(
                |e: GroupEntry| GroupView { name: e.name, modules: e.modules },
            ));
        }
        i += 1;
    }
    assert(final_entries.take(i as int) =~= final_entries);
    r
}

// ---------------------------------------------------------------------------
// Laws of the orders
// ---------------------------------------------------------------------------

/// `lt` is a strict weak order: asymmetric, and "not less than" is transitive.
pub open spec fn strict_weak_order<T>(lt: spec_fn(T, T) -> bool) -> bool {
    &&& forall|a: T, b: T| #[trigger] lt(a, b) ==> !lt(b, a)
    &&& forall|a: T, b: T, c: T|
        #![trigger lt(a, b), lt(b, c)]
        #![trigger lt(a, b), lt(a, c)]
        #![trigger lt(b, c), lt(a, c)]
        !lt(a, b) && !lt(b, c) ==> !lt(a, c)
}

/// No element of `s` is less than an element before it.
pub open spec fn is_ordered<T>(s: Seq<T>, lt: spec_fn(T, T) -> bool) -> bool {
    forall|i: int, j: int| 0 <= i < j < s.len() ==> !lt(#[trigger] s[j], #[trigger] s[i])
}

proof fn lemma_insert_sorted<T>(s: Seq<T>, x: T, lt: spec_fn(T, T) -> bool)
    requires
        strict_weak_order(lt),
        is_ordered(s, lt),
    ensures
        is_ordered(insert_sorted(s, x, lt), lt),
        insert_sorted(s, x, lt).to_multiset() == s.to_multiset().insert(x),
    decreases s.len(),
{
    broadcast use vstd::seq_lib::group_to_multiset_ensures;

    if s.len() == 0 {
        assert(seq![x] =~= Seq::<T>::empty().push(x));
    } else if lt(x, s.last()) {
        let s1 = s.drop_last();
        assert(is_ordered(s1, lt));
        lemma_insert_sorted(s1, x, lt);
        let r1 = insert_sorted(s1, x, lt);
        assert(s =~= s1.push(s.last()));
        assert forall|i: int| 0 <= i < r1.len() implies !lt(s.last(), #[trigger] r1[i]) by {
            assert(r1.to_multiset().count(r1[i]) > 0);
            if r1[i] != x {
                assert(s1.to_multiset().count(r1[i]) > 0);
                assert(s1.contains(r1[i]));
                let k = choose|k: int| 0 <= k < s1.len() && s1[k] == r1[i];
                assert(s[k] == s1[k]);
            }
        }
        let r = r1.push(s.last());
        assert forall|i: int, j: int| 0 <= i < j < r.len() implies !lt(
            #[trigger] r[j],
            #[trigger] r[i],
        ) by {
            if j == r.len() - 1 {
                assert(r[i] == r1[i]);
            } else {
                assert(r[i] == r1[i] && r[j] == r1[j]);
            }
        }
    } else {
        let r = s.push(x);
        assert forall|i: int, j: int| 0 <= i < j < r.len() implies !lt(
            #[trigger] r[j],
            #[trigger] r[i],
        ) by {
            if j == r.len() - 1 {
                if i < s.len() - 1 {
                    assert(!lt(s[s.len() - 1], s[i]));
                    assert(!lt(x, s.last()));
                }
            } else {
                assert(r[i] == s[i] && r[j] == s[j]);
            }
        }
    }
}

/// Sorting by a strict weak order gives an ordered sequence of the same elements.
pub proof fn lemma_sorted_by<T>(s: Seq<T>, lt: spec_fn(T, T) -> bool)
    requires
        strict_weak_order(lt),
    ensures
        is_ordered(sorted_by(s, lt), lt),
        sorted_by(s, lt).to_multiset() == s.to_multiset(),
    decreases s.len(),
{
    broadcast use vstd::seq_lib::group_to_multiset_ensures;

    if s.len() > 0 {
        lemma_sorted_by(s.drop_last(), lt);
        lemma_insert_sorted(sorted_by(s.drop_last(), lt), s.last(), lt);
        assert(s =~= s.drop_last().push(s.last()));
    } else {
        assert(s.to_multiset() =~= vstd::multiset::Multiset::empty());
        assert(Seq::<T>::empty().to_multiset() =~= vstd::multiset::Multiset::empty());
    }
}

/// Sorting what is already in order changes nothing: the sort is stable.
pub proof fn lemma_sorted_by_ordered<T>(s: Seq<T>, lt: spec_fn(T, T) -> bool)
    requires
        is_ordered(s, lt),
    ensures
        sorted_by(s, lt) == s,
    decreases s.len(),
{
    if s.len() > 0 {
        let s1 = s.drop_last();
        assert(is_ordered(s1, lt));
        lemma_sorted_by_ordered(s1, lt);
        if s1.len() > 0 {
            assert(!lt(s[s.len() - 1], s[s.len() - 2]));
            assert(s1.last() == s[s.len() - 2]);
        }
        assert(s1.push(s.last()) =~= s);
    }
}

proof fn lemma_seq_lt_irrefl(a: Seq<char>)
    ensures
        !seq_lt(a, a),
    decreases a.len(),
{
    if a.len() > 0 {
        lemma_seq_lt_irrefl(a.drop_first());
    }
}

proof fn lemma_seq_lt_trans(a: Seq<char>, b: Seq<char>, c: Seq<char>)
    requires
        seq_lt(a, b),
        seq_lt(b, c),
    ensures
        seq_lt(a, c),
    decreases a.len(),
{
    if a.len() > 0 && b.len() > 0 && c.len() > 0 && a[0] == b[0] && b[0] == c[0] {
        lemma_seq_lt_trans(a.drop_first(), b.drop_first(), c.drop_first());
    }
}

proof fn lemma_seq_lt_total(a: Seq<char>, b: Seq<char>)
    ensures
        a == b || seq_lt(a, b) || seq_lt(b, a),
    decreases a.len(),
{
    if a.len() > 0 && b.len() > 0 && a[0] == b[0] {
        lemma_seq_lt_total(a.drop_first(), b.drop_first());
        if a.drop_first() == b.drop_first() {
            assert(a =~= seq![a[0]] + a.drop_first());
            assert(b =~= seq![b[0]] + b.drop_first());
        }
    } else if a.len() == 0 && b.len() == 0 {
        assert(a =~= b);
    } else if a.len() > 0 && b.len() > 0 {
        vstd::utf8::char_u32_cast(a[0], a[0] as u32);
        vstd::utf8::char_u32_cast(b[0], b[0] as u32);
        assert((a[0] as u32) != (b[0] as u32));
    }
}

proof fn lemma_seq_lt_asym(a: Seq<char>, b: Seq<char>)
    ensures
        seq_lt(a, b) ==> !seq_lt(b, a),
{
    if seq_lt(a, b) && seq_lt(b, a) {
        lemma_seq_lt_trans(a, b, a);
        lemma_seq_lt_irrefl(a);
    }
}

/// The order of names is the lexicographic order of `String::cmp`: no name
/// comes before itself, a proper prefix comes before the longer name, and
/// otherwise the first character in which two names differ decides, by code point.
pub proof fn lemma_seq_lt_lexicographic(p: Seq<char>, x: Seq<char>, y: Seq<char>)
    ensures
        !seq_lt(p, p),
        x.len() > 0 ==> seq_lt(p, p + x) && !seq_lt(p + x, p),
        x.len() > 0 && y.len() > 0 && x[0] != y[0] ==> (seq_lt(p + x, p + y) <==> (x[0] as u32) < (
        y[0] as u32)),
    decreases p.len(),
{
    lemma_seq_lt_irrefl(p);
    if p.len() == 0 {
        assert(p + x =~= x);
        assert(p + y =~= y);
    } else {
        lemma_seq_lt_lexicographic(p.drop_first(), x, y);
        assert((p + x).drop_first() =~= p.drop_first() + x);
        assert((p + y).drop_first() =~= p.drop_first() + y);
        assert((p + x)[0] == p[0]);
        assert((p + y)[0] == p[0]);
    }
}

/// The order of modules is a strict weak order.
pub proof fn lemma_module_order()
    ensures
        strict_weak_order(module_order()),
{
    let lt = module_order();
    assert forall|a: ModuleView, b: ModuleView| #[trigger] lt(a, b) implies !lt(b, a) by {
        lemma_seq_lt_asym(a.name, b.name);
    }
    assert forall|a: ModuleView, b: ModuleView, c: ModuleView|
        #![trigger lt(a, b), lt(b, c)]
        #![trigger lt(a, b), lt(a, c)]
        #![trigger lt(b, c), lt(a, c)]
        !lt(a, b) && !lt(b, c) implies !lt(a, c) by {
        lemma_seq_lt_total(a.name, b.name);
        lemma_seq_lt_total(b.name, c.name);
        lemma_seq_lt_asym(a.name, c.name);
        if seq_lt(c.name, b.name) && seq_lt(b.name, a.name) {
            lemma_seq_lt_trans(c.name, b.name, a.name);
        }
    }
}

/// Sorting modules puts them in order of z-index, then name, and keeps every
/// module exactly as often as it was there.
pub proof fn lemma_sort_modules_ordered(ms: Seq<ModuleView>)
    ensures
        is_ordered(sorted_by(ms, module_order()), module_order()),
        sorted_by(ms, module_order()).to_multiset() == ms.to_multiset(),
{
    lemma_module_order();
    lemma_sorted_by(ms, module_order());
}

// ---------------------------------------------------------------------------
// Laws of the grouping
// ---------------------------------------------------------------------------

/// The modules of `ms[0..n]` whose folder is `f`, in order.
pub open spec fn modules_in_folder(ms: Seq<ModuleView>, n: int, f: Option<Seq<char>>) -> Seq<
    ModuleView,
>
    decreases n,
{
    if n <= 0 {
        Seq::empty()
    } else if ms[n - 1].folder == f {
        modules_in_folder(ms, n - 1, f).push(ms[n - 1])
    } else {
        modules_in_folder(ms, n - 1, f)
    }
}

proof fn lemma_group_index(es: Seq<GroupEntry>, i: int, f: Option<Seq<char>>)
    requires
        0 <= i <= es.len(),
    ensures
        i <= group_index_from(es, i, f) <= es.len(),
        group_index_from(es, i, f) < es.len() ==> es[group_index_from(es, i, f)].name == f,
        forall|j: int| i <= j < group_index_from(es, i, f) ==> (#[trigger] es[j]).name != f,
    decreases es.len() - i,
{
    if i < es.len() && es[i].name != f {
        lemma_group_index(es, i + 1, f);
    }
}

proof fn lemma_group_entries(ms: Seq<ModuleView>, n: int)
    requires
        0 <= n <= ms.len(),
    ensures
        ({
            let es = group_entries(ms, n);
            &&& forall|g: int|
                0 <= g < es.len() ==> (#[trigger] es[g]).modules == modules_in_folder(
                    ms,
                    n,
                    es[g].name,
                )
            &&& forall|a: int, b: int|
                0 <= a < b < es.len() ==> (#[trigger] es[a]).name != (#[trigger] es[b]).name
            &&& forall|i: int|
                0 <= i < n ==> exists|g: int|
                    0 <= g < es.len() && (#[trigger] es[g]).name == (#[trigger] ms[i]).folder
            &&& forall|f: Option<Seq<char>>|
                (forall|g: int| 0 <= g < es.len() ==> (#[trigger] es[g]).name != f) ==> (
                #[trigger] modules_in_folder(ms, n, f)).len() == 0
        }),
    decreases n,
{
    if n > 0 {
        lemma_group_entries(ms, n - 1);
        let prev = group_entries(ms, n - 1);
        let m = ms[n - 1];
        let k = group_index_from(prev, 0, m.folder);
        lemma_group_index(prev, 0, m.folder);
        let es = group_entries(ms, n);
        if k < prev.len() {
            assert(es == prev.update(k, GroupEntry { modules: prev[k].modules.push(m), ..prev[k] }));
            assert forall|g: int| 0 <= g < es.len() implies (#[trigger] es[g]).modules
                == modules_in_folder(ms, n, es[g].name) by {
                if g != k {
                    assert(es[g] == prev[g]);
                    assert(prev[g].name != prev[k].name);
                }
            }
            assert forall|i: int| 0 <= i < n implies exists|g: int|
                0 <= g < es.len() && (#[trigger] es[g]).name == (#[trigger] ms[i]).folder by {
                if i < n - 1 {
                    let g = choose|g: int|
                        0 <= g < prev.len() && (#[trigger] prev[g]).name == ms[i].folder;
                    assert(es[g].name == prev[g].name);
                } else {
                    assert(es[k].name == ms[i].folder);
                }
            }
            assert forall|f: Option<Seq<char>>|
                (forall|g: int| 0 <= g < es.len() ==> (#[trigger] es[g]).name != f) implies (
            #[trigger] modules_in_folder(ms, n, f)).len() == 0 by {
                assert(es[k].name != f);
                assert forall|g: int| 0 <= g < prev.len() implies (#[trigger] prev[g]).name != f by {
                    assert(es[g].name == prev[g].name);
                }
                assert(modules_in_folder(ms, n - 1, f).len() == 0);
                assert(m.folder != f);
            }
        } else {
            let new_entry = GroupEntry { z: module_folder_z(m), name: m.folder, modules: seq![m] };
            assert(es == prev.push(new_entry));
            assert(modules_in_folder(ms, n - 1, m.folder).len() == 0);
            assert(modules_in_folder(ms, n, m.folder) =~= seq![m]);
            assert forall|g: int| 0 <= g < es.len() implies (#[trigger] es[g]).modules
                == modules_in_folder(ms, n, es[g].name) by {
                if g < prev.len() {
                    assert(es[g] == prev[g]);
                }
            }
            assert forall|i: int| 0 <= i < n implies exists|g: int|
                0 <= g < es.len() && (#[trigger] es[g]).name == (#[trigger] ms[i]).folder by {
                if i < n - 1 {
                    let g = choose|g: int|
                        0 <= g < prev.len() && (#[trigger] prev[g]).name == ms[i].folder;
                    assert(es[g] == prev[g]);
                } else {
                    assert(es[prev.len() as int].name == ms[i].folder);
                }
            }
            assert forall|f: Option<Seq<char>>|
                (forall|g: int| 0 <= g < es.len() ==> (#[trigger] es[g]).name != f) implies (
            #[trigger] modules_in_folder(ms, n, f)).len() == 0 by {
                assert(es[prev.len() as int].name != f);
                assert forall|g: int| 0 <= g < prev.len() implies (#[trigger] prev[g]).name != f by {
                    assert(es[g] == prev[g]);
                }
                assert(modules_in_folder(ms, n - 1, f).len() == 0);
                assert(m.folder != f);
            }
        }
    }
}

proof fn lemma_insert_sorted_perm<T>(s: Seq<T>, x: T, lt: spec_fn(T, T) -> bool)
    ensures
        insert_sorted(s, x, lt).to_multiset() == s.to_multiset().insert(x),
    decreases s.len(),
{
    broadcast use vstd::seq_lib::group_to_multiset_ensures;

    if s.len() == 0 {
        assert(seq![x] =~= Seq::<T>::empty().push(x));
    } else if lt(x, s.last()) {
        lemma_insert_sorted_perm(s.drop_last(), x, lt);
        assert(s =~= s.drop_last().push(s.last()));
    }
}

/// Sorting keeps every element exactly as often as it was there, whatever the order.
pub proof fn lemma_sorted_by_perm<T>(s: Seq<T>, lt: spec_fn(T, T) -> bool)
    ensures
        sorted_by(s, lt).to_multiset() == s.to_multiset(),
    decreases s.len(),
{
    broadcast use vstd::seq_lib::group_to_multiset_ensures;

    if s.len() > 0 {
        lemma_sorted_by_perm(s.drop_last(), lt);
        lemma_insert_sorted_perm(sorted_by(s.drop_last(), lt), s.last(), lt);
        assert(s =~= s.drop_last().push(s.last()));
    } else {
        assert(s.to_multiset() =~= vstd::multiset::Multiset::empty());
        assert(Seq::<T>::empty().to_multiset() =~= vstd::multiset::Multiset::empty());
    }
}

/// The navigation has one group per folder: no two groups share a folder,
/// every folder of the modules has its group, and a group holds exactly the
/// modules of its folder, in order.
pub proof fn lemma_nav_groups_partition(ms: Seq<ModuleView>)
    ensures
        ({
            let gs = nav_groups(ms);
            &&& forall|a: int, b: int|
                0 <= a < b < gs.len() ==> (#[trigger] gs[a]).name != (#[trigger] gs[b]).name
            &&& forall|g: int|
                0 <= g < gs.len() ==> (#[trigger] gs[g]).modules == sorted_by(
                    modules_in_folder(ms, ms.len() as int, gs[g].name),
                    module_order(),
                )
            &&& forall|i: int|
                0 <= i < ms.len() ==> exists|g: int|
                    0 <= g < gs.len() && (#[trigger] gs[g]).name == (#[trigger] ms[i]).folder
        }),
{
    broadcast use vstd::seq_lib::group_to_multiset_ensures;

    let n = ms.len() as int;
    let es = group_entries(ms, n);
    lemma_group_entries(ms, n);
    let se = es.map_values(|e: GroupEntry| sort_entry(e));
    let fin = sorted_by(se, group_order());
    let gs = nav_groups(ms);
    lemma_sorted_by_perm(se, group_order());
    assert(gs == fin.map_values(|e: GroupEntry| GroupView { name: e.name, modules: e.modules }));
    // Each final group is one of the groups built.
    assert forall|g: int| 0 <= g < fin.len() implies exists|j: int|
        0 <= j < se.len() && se[j] == #[trigger] fin[g] by {
        assert(fin.to_multiset().count(fin[g]) > 0);
        assert(se.to_multiset().count(fin[g]) > 0);
        assert(se.contains(fin[g]));
    }
    assert forall|g: int| 0 <= g < gs.len() implies (#[trigger] gs[g]).modules == sorted_by(
        modules_in_folder(ms, n, gs[g].name),
        module_order(),
    ) by {
        let j = choose|j: int| 0 <= j < se.len() && se[j] == #[trigger] fin[g];
        assert(es[j].modules == modules_in_folder(ms, n, es[j].name));
    }
    // No two groups share a folder.
    assert(se.no_duplicates()) by {
        assert forall|a: int, b: int| 0 <= a < se.len() && 0 <= b < se.len() && a != b implies se[a]
            != se[b] by {
            if a < b {
                assert(es[a].name != es[b].name);
            } else {
                assert(es[b].name != es[a].name);
            }
        }
    }
    se.lemma_multiset_has_no_duplicates();
    fin.lemma_multiset_has_no_duplicates_conv();
    assert forall|a: int, b: int| 0 <= a < b < gs.len() implies (#[trigger] gs[a]).name != (
    #[trigger] gs[b]).name by {
        let ja = choose|j: int| 0 <= j < se.len() && se[j] == #[trigger] fin[a];
        let jb = choose|j: int| 0 <= j < se.len() && se[j] == #[trigger] fin[b];
        if ja != jb {
            if ja < jb {
                assert(es[ja].name != es[jb].name);
            } else {
                assert(es[jb].name != es[ja].name);
            }
        }
    }
    // Every folder has its group.
    assert forall|i: int| 0 <= i < ms.len() implies exists|g: int|
        0 <= g < gs.len() && (#[trigger] gs[g]).name == (#[trigger] ms[i]).folder by {
        let j = choose|j: int| 0 <= j < es.len() && (#[trigger] es[j]).name == ms[i].folder;
        assert(se[j].name == ms[i].folder);
        assert(se.to_multiset().count(se[j]) > 0);
        assert(fin.to_multiset().count(se[j]) > 0);
        assert(fin.contains(se[j]));
        let g = choose|g: int| 0 <= g < fin.len() && fin[g] == se[j];
        assert(gs[g].name == fin[g].name);
    }
}

proof fn lemma_opt_lt(a: Option<Seq<char>>, b: Option<Seq<char>>, c: Option<Seq<char>>)
    ensures
        opt_lt(a, b) ==> !opt_lt(b, a),
        a == b || opt_lt(a, b) || opt_lt(b, a),
        opt_lt(a, b) && opt_lt(b, c) ==> opt_lt(a, c),
{
    match (a, b) {
        (Some(x), Some(y)) => {
            lemma_seq_lt_asym(x, y);
            lemma_seq_lt_total(x, y);
        },
        _ => {},
    }
    match (a, b, c) {
        (Some(x), Some(y), Some(z)) => {
            if seq_lt(x, y) && seq_lt(y, z) {
                lemma_seq_lt_trans(x, y, z);
            }
        },
        _ => {},
    }
}

/// The order of groups is a strict weak order.
pub proof fn lemma_group_order()
    ensures
        strict_weak_order(group_order()),
{
    let lt = group_order();
    assert forall|a: GroupEntry, b: GroupEntry| #[trigger] lt(a, b) implies !lt(b, a) by {
        lemma_opt_lt(a.name, b.name, b.name);
    }
    assert forall|a: GroupEntry, b: GroupEntry, c: GroupEntry|
        #![trigger lt(a, b), lt(b, c)]
        #![trigger lt(a, b), lt(a, c)]
        #![trigger lt(b, c), lt(a, c)]
        !lt(a, b) && !lt(b, c) implies !lt(a, c) by {
        lemma_opt_lt(a.name, b.name, c.name);
        lemma_opt_lt(b.name, c.name, a.name);
        lemma_opt_lt(c.name, b.name, a.name);
        lemma_opt_lt(a.name, c.name, a.name);
    }
}

/// The groups of the navigation come in order of where they go, then of
/// folder name, each group's modules in order of z-index, then name.
pub proof fn lemma_nav_groups_ordered(ms: Seq<ModuleView>)
    ensures
        ({
            let es = group_entries(ms, ms.len() as int).map_values(|e: GroupEntry| sort_entry(e));
            let fin = sorted_by(es, group_order());
            &&& is_ordered(fin, group_order())
            &&& nav_groups(ms) == fin.map_values(
                |e: GroupEntry| GroupView { name: e.name, modules: e.modules },
            )
            &&& forall|g: int|
                0 <= g < fin.len() ==> is_ordered((#[trigger] fin[g]).modules, module_order())
        }),
{
    let es = group_entries(ms, ms.len() as int).map_values(|e: GroupEntry| sort_entry(e));
    let fin = sorted_by(es, group_order());
    lemma_group_order();
    lemma_sorted_by(es, group_order());
    lemma_sorted_by_perm(es, group_order());
    lemma_module_order();
    assert forall|g: int| 0 <= g < fin.len() implies is_ordered(
        (#[trigger] fin[g]).modules,
        module_order(),
    ) by {
        assert(fin.to_multiset().count(fin[g]) > 0) by {
            broadcast use vstd::seq_lib::group_to_multiset_ensures;
            assert(fin.contains(fin[g]));
        }
        assert(es.to_multiset().count(fin[g]) > 0) by {
            broadcast use vstd::seq_lib::group_to_multiset_ensures;
        }
        assert(es.contains(fin[g])) by {
            broadcast use vstd::seq_lib::group_to_multiset_ensures;
        }
        let j = choose|j: int| 0 <= j < es.len() && es[j] == fin[g];
        lemma_sorted_by(group_entries(ms, ms.len() as int)[j].modules, module_order());
    }
}

/// A group of source-root modules goes where its first module goes, which is
/// the one with the least z-index: no module of the group has a lower z-index
/// than the group's place, one has exactly that z-index, and so the group comes
/// before every folder whose order is above the z-index of any of its modules.
pub proof fn lemma_root_group_placed_by_least_z(ms: Seq<ModuleView>)
    ensures
        ({
            let es = group_entries(ms, ms.len() as int).map_values(|e: GroupEntry| sort_entry(e));
            let fin = sorted_by(es, group_order());
            &&& forall|g: int, i: int|
                0 <= g < fin.len() && fin[g].name is None && 0 <= i < fin[g].modules.len()
                    ==> actual_z(fin[g]) <= (#[trigger] fin[g].modules[i]).z_index
            &&& forall|g: int|
                0 <= g < fin.len() && (#[trigger] fin[g]).name is None && fin[g].modules.len() > 0
                    ==> exists|i: int|
                    0 <= i < fin[g].modules.len() && actual_z(fin[g]) == (
                    #[trigger] fin[g].modules[i]).z_index
            &&& forall|a: int, b: int, i: int|
                0 <= a < fin.len() && 0 <= b < fin.len() && fin[a].name is None && fin[b].name is Some
                    && 0 <= i < fin[a].modules.len() && (#[trigger] fin[a].modules[i]).z_index
                    < (#[trigger] fin[b]).z ==> a < b
        }),
{
    let es = group_entries(ms, ms.len() as int).map_values(|e: GroupEntry| sort_entry(e));
    let fin = sorted_by(es, group_order());
    lemma_nav_groups_ordered(ms);
    assert forall|g: int, i: int|
        0 <= g < fin.len() && fin[g].name is None && 0 <= i < fin[g].modules.len() implies actual_z(
        fin[g],
    ) <= (#[trigger] fin[g].modules[i]).z_index by {
        let mods = fin[g].modules;
        assert(is_ordered(mods, module_order()));
        if i > 0 {
            assert(!module_order()(mods[i], mods[0]));
        }
    }
    assert forall|g: int|
        0 <= g < fin.len() && (#[trigger] fin[g]).name is None && fin[g].modules.len() > 0 implies exists|i: int|
        0 <= i < fin[g].modules.len() && actual_z(fin[g]) == (#[trigger] fin[g].modules[i]).z_index by {
        assert(actual_z(fin[g]) == fin[g].modules[0].z_index);
    }
    assert forall|a: int, b: int, i: int|
        0 <= a < fin.len() && 0 <= b < fin.len() && fin[a].name is None && fin[b].name is Some && 0
            <= i < fin[a].modules.len() && (#[trigger] fin[a].modules[i]).z_index < (
        #[trigger] fin[b]).z implies a < b by {
        let mods = fin[a].modules;
        assert(is_ordered(mods, module_order()));
        if i > 0 {
            assert(!module_order()(mods[i], mods[0]));
        }
        assert(actual_z(fin[a]) <= mods[i].z_index);
        assert(actual_z(fin[b]) == fin[b].z);
        assert(group_order()(fin[a], fin[b]));
        if b < a {
            assert(!group_order()(fin[a], fin[b]));
        }
    }
}

} // verus!
