use vstd::prelude::*;
use vstd::hash_map::StringHashMap;

use crate::models::{PythonClass, PythonModule, PythonPackage};

verus! {

/// The page of a module within a package's documentation.
pub open spec fn module_page(package: Seq<char>, module: Seq<char>) -> Seq<char> {
    package + "."@ + module + ".html"@
}

/// The anchor of a class on its module's page.
pub open spec fn class_anchor(package: Seq<char>, module: Seq<char>, class: Seq<char>) -> Seq<char> {
    package + "."@ + module + ".html#class."@ + class
}

/// The anchor of a method on its module's page.
pub open spec fn method_anchor(
    package: Seq<char>,
    module: Seq<char>,
    class: Seq<char>,
    method: Seq<char>,
) -> Seq<char> {
    package + "."@ + module + ".html#method."@ + class + "."@ + method
}

/// The anchor of a top-level function on its module's page.
pub open spec fn function_anchor(package: Seq<char>, module: Seq<char>, function: Seq<char>) -> Seq<
    char,
> {
    package + "."@ + module + ".html#fn."@ + function
}

/// The symbol map after indexing the methods `functions[0..n]` of a class.
pub open spec fn index_methods(
    map: Map<Seq<char>, Seq<char>>,
    package: Seq<char>,
    module: PythonModule,
    class: PythonClass,
    n: int,
) -> Map<Seq<char>, Seq<char>>
    decreases n,
{
    if n <= 0 {
        map
    } else {
        let method = class.functions@[n - 1];
        index_methods(map, package, module, class, n - 1).insert(
            method.name@,
            method_anchor(package, module.name@, class.name@, method.name@),
        )
    }
}

/// The symbol map after indexing the classes `classes[0..n]` of a module, each
/// class followed by its methods.
pub open spec fn index_classes(
    map: Map<Seq<char>, Seq<char>>,
    package: Seq<char>,
    module: PythonModule,
    n: int,
) -> Map<Seq<char>, Seq<char>>
    decreases n,
{
    if n <= 0 {
        map
    } else {
        let class = module.classes@[n - 1];
        index_methods(
            index_classes(map, package, module, n - 1).insert(
                class.name@,
                class_anchor(package, module.name@, class.name@),
            ),
            package,
            module,
            class,
            class.functions@.len() as int,
        )
    }
}

/// The symbol map after indexing the top-level functions `functions[0..n]` of a module.
pub open spec fn index_functions(
    map: Map<Seq<char>, Seq<char>>,
    package: Seq<char>,
    module: PythonModule,
    n: int,
) -> Map<Seq<char>, Seq<char>>
    decreases n,
{
    if n <= 0 {
        map
    } else {
        let function = module.functions@[n - 1];
        index_functions(map, package, module, n - 1).insert(
            function.name@,
            function_anchor(package, module.name@, function.name@),
        )
    }
}

/// The symbol map after indexing one module: the module itself, then its
/// classes (each with its methods), then its top-level functions.
pub open spec fn index_module(
    map: Map<Seq<char>, Seq<char>>,
    package: Seq<char>,
    module: PythonModule,
) -> Map<Seq<char>, Seq<char>> {
    index_functions(
        index_classes(
            map.insert(module.name@, module_page(package, module.name@)),
            package,
            module,
            module.classes@.len() as int,
        ),
        package,
        module,
        module.functions@.len() as int,
    )
}

/// The symbol map after indexing the modules `modules[0..n]` in order; later entries win.
pub open spec fn index_modules(
    map: Map<Seq<char>, Seq<char>>,
    package: Seq<char>,
    modules: Seq<PythonModule>,
    n: int,
) -> Map<Seq<char>, Seq<char>>
    decreases n,
{
    if n <= 0 {
        map
    } else {
        index_module(index_modules(map, package, modules, n - 1), package, modules[n - 1])
    }
}

/// Maps symbol names (modules, classes, methods and functions) to the place in
/// the documentation that defines them.
pub struct Resolver {
    pub symbol_map: StringHashMap<String>,
}

impl Resolver {
    /// The symbol map with every value taken by its characters.
    pub open spec fn symbols(&self) -> Map<Seq<char>, Seq<char>> {
        self.symbol_map@.map_values(|v: String| v@)
    }

    /// An empty resolver.
    pub fn new() -> (r: Self)
        ensures
            r.symbols() == Map::<Seq<char>, Seq<char>>::empty(),
    {
        let r = Resolver { symbol_map: StringHashMap::new() };
        assert(r.symbols() =~= Map::<Seq<char>, Seq<char>>::empty());
        r
    }

    /// Inserts `key -> value` into the symbol map.
    fn record(&mut self, key: String, value: String)
        ensures
            final(self).symbols() == old(self).symbols().insert(key@, value@),
    {
        self.symbol_map.insert(key, value);
        assert(self.symbols() =~= old(self).symbols().insert(key@, value@));
    }

    /// Indexes all modules, classes, and functions to build a global symbol map.
    ///
    /// A module name maps to `<package>.<module>.html`, a class name to
    /// `<package>.<module>.html#class.<class>`, a method name to
    /// `<package>.<module>.html#method.<class>.<method>` and a top-level function
    /// name to `<package>.<module>.html#fn.<function>`. Entries are recorded module
    /// by module: the module, then each class followed by its methods, then the
    /// functions; a later entry replaces an earlier one.
    pub fn build_index(&mut self, package: &PythonPackage)
        ensures
            final(self).symbols() == index_modules(
                old(self).symbols(),
                package.name@,
                package.modules@,
                package.modules@.len() as int,
            ),
    {
        proof {
            reveal_strlit(".");
            reveal_strlit(".html");
            reveal_strlit(".html#class.");
            reveal_strlit(".html#method.");
            reveal_strlit(".html#fn.");
        }
        let n = package.modules.len();
        let mut i: usize = 0;
        while i < n
            invariant
                i <= n,
                n == package.modules@.len(),
                self.symbols() == index_modules(
                    old(self).symbols(),
                    package.name@,
                    package.modules@,
                    i as int,
                ),
            decreases n - i,
        {
            let module = &package.modules[i];
            let mut mod_path = package.name.clone();
            mod_path.push_str(".");
            mod_path.push_str(module.name.as_str());
            let mut page = mod_path.clone();
            page.push_str(".html");
            assert(page@ =~= module_page(package.name@, module.name@));
            self.record(module.name.clone(), page);
            let ghost base = self.symbols();
            let m = module.classes.len();
            let mut j: usize = 0;
            while j < m
                invariant
                    j <= m,
                    m == module.classes@.len(),
                    mod_path@ == package.name@ + "."@ + module.name@,
                    self.symbols() == index_classes(base, package.name@, *module, j as int),
                decreases m - j,
            {
                let class = &module.classes[j];
                let mut anchor = mod_path.clone();
                anchor.push_str(".html#class.");
                anchor.push_str(class.name.as_str());
                assert(anchor@ =~= class_anchor(package.name@, module.name@, class.name@));
                self.record(class.name.clone(), anchor);
                let ghost class_base = self.symbols();
                let mut method_prefix = mod_path.clone();
                method_prefix.push_str(".html#method.");
                method_prefix.push_str(class.name.as_str());
                method_prefix.push_str(".");
                let q = class.functions.len();
                let mut k: usize = 0;
                while k < q
                    invariant
                        k <= q,
                        q == class.functions@.len(),
                        method_prefix@ == package.name@ + "."@ + module.name@ + ".html#method."@
                            + class.name@ + "."@,
                        self.symbols() == index_methods(
                            class_base,
                            package.name@,
                            *module,
                            *class,
                            k as int,
                        ),
                    decreases q - k,
                {
                    let method = &class.functions[k];
                    let mut target = method_prefix.clone();
                    target.push_str(method.name.as_str());
                    assert(target@ =~= method_anchor(
                        package.name@,
                        module.name@,
                        class.name@,
                        method.name@,
                    ));
                    self.record(method.name.clone(), target);
                    k += 1;
                }
                j += 1;
            }
            let ghost fn_base = self.symbols();
            let mut fn_prefix = mod_path.clone();
            fn_prefix.push_str(".html#fn.");
            let f = module.functions.len();
            let mut k: usize = 0;
            while k < f
                invariant
                    k <= f,
                    f == module.functions@.len(),
                    fn_prefix@ == package.name@ + "."@ + module.name@ + ".html#fn."@,
                    self.symbols() == index_functions(fn_base, package.name@, *module, k as int),
                decreases f - k,
            {
                let function = &module.functions[k];
                let mut target = fn_prefix.clone();
                target.push_str(function.name.as_str());
                assert(target@ =~= function_anchor(package.name@, module.name@, function.name@));
                self.record(function.name.clone(), target);
                k += 1;
            }
            i += 1;
        }
    }

    /// Where `type_hint` is documented, when it names an indexed symbol.
    pub fn resolve_link(&self, type_hint: &str) -> (r: Option<String>)
        ensures
            r is Some <==> self.symbols().contains_key(type_hint@),
            r matches Some(link) ==> link@ == self.symbols()[type_hint@],
    {
        match self.symbol_map.get(type_hint) {
            Some(link) => Some(link.clone()),
            None => None,
        }
    }
}

proof fn lemma_index_methods_keys(
    map: Map<Seq<char>, Seq<char>>,
    package: Seq<char>,
    module: PythonModule,
    class: PythonClass,
    n: int,
)
    requires
        0 <= n <= class.functions@.len(),
    ensures
        forall|k: Seq<char>|
            map.contains_key(k) ==> #[trigger] index_methods(
                map,
                package,
                module,
                class,
                n,
            ).contains_key(k),
        forall|j: int|
            0 <= j < n ==> index_methods(map, package, module, class, n).contains_key(
                #[trigger] class.functions@[j].name@,
            ),
    decreases n,
{
    if n > 0 {
        lemma_index_methods_keys(map, package, module, class, n - 1);
        let p = index_methods(map, package, module, class, n - 1);
        let m = index_methods(map, package, module, class, n);
        let method = class.functions@[n - 1];
        assert(m == p.insert(
            method.name@,
            method_anchor(package, module.name@, class.name@, method.name@),
        ));
        assert forall|k: Seq<char>| map.contains_key(k) implies #[trigger] m.contains_key(k) by {
            assert(p.contains_key(k));
        }
        assert forall|j: int| 0 <= j < n implies m.contains_key(
            #[trigger] class.functions@[j].name@,
        ) by {
            if j < n - 1 {
                assert(p.contains_key(class.functions@[j].name@));
            }
        }
    }
}

proof fn lemma_index_functions_keys(
    map: Map<Seq<char>, Seq<char>>,
    package: Seq<char>,
    module: PythonModule,
    n: int,
)
    requires
        0 <= n <= module.functions@.len(),
    ensures
        forall|k: Seq<char>|
            map.contains_key(k) ==> #[trigger] index_functions(
                map,
                package,
                module,
                n,
            ).contains_key(k),
        forall|j: int|
            0 <= j < n ==> index_functions(map, package, module, n).contains_key(
                #[trigger] module.functions@[j].name@,
            ),
    decreases n,
{
    if n > 0 {
        lemma_index_functions_keys(map, package, module, n - 1);
        let p = index_functions(map, package, module, n - 1);
        let m = index_functions(map, package, module, n);
        let function = module.functions@[n - 1];
        assert(m == p.insert(function.name@, function_anchor(package, module.name@, function.name@)));
        assert forall|k: Seq<char>| map.contains_key(k) implies #[trigger] m.contains_key(k) by {
            assert(p.contains_key(k));
        }
        assert forall|j: int| 0 <= j < n implies m.contains_key(
            #[trigger] module.functions@[j].name@,
        ) by {
            if j < n - 1 {
                assert(p.contains_key(module.functions@[j].name@));
            }
        }
    }
}

proof fn lemma_index_classes_keys(
    map: Map<Seq<char>, Seq<char>>,
    package: Seq<char>,
    module: PythonModule,
    n: int,
)
    requires
        0 <= n <= module.classes@.len(),
    ensures
        forall|k: Seq<char>|
            map.contains_key(k) ==> #[trigger] index_classes(
                map,
                package,
                module,
                n,
            ).contains_key(k),
        forall|j: int|
            0 <= j < n ==> index_classes(map, package, module, n).contains_key(
                #[trigger] module.classes@[j].name@,
            ),
        forall|j: int, q: int|
            0 <= j < n && 0 <= q < module.classes@[j].functions@.len() ==> index_classes(
                map,
                package,
                module,
                n,
            ).contains_key(#[trigger] module.classes@[j].functions@[q].name@),
    decreases n,
{
    if n > 0 {
        lemma_index_classes_keys(map, package, module, n - 1);
        let p = index_classes(map, package, module, n - 1);
        let class = module.classes@[n - 1];
        let start = p.insert(class.name@, class_anchor(package, module.name@, class.name@));
        let m = index_classes(map, package, module, n);
        lemma_index_methods_keys(start, package, module, class, class.functions@.len() as int);
        assert(m == index_methods(start, package, module, class, class.functions@.len() as int));
        assert forall|k: Seq<char>| map.contains_key(k) implies #[trigger] m.contains_key(k) by {
            assert(p.contains_key(k));
            assert(start.contains_key(k));
        }
        assert forall|j: int| 0 <= j < n implies m.contains_key(
            #[trigger] module.classes@[j].name@,
        ) by {
            if j < n - 1 {
                assert(p.contains_key(module.classes@[j].name@));
            }
            assert(start.contains_key(module.classes@[j].name@));
        }
        assert forall|j: int, q: int|
            0 <= j < n && 0 <= q < module.classes@[j].functions@.len() implies m.contains_key(
            #[trigger] module.classes@[j].functions@[q].name@,
        ) by {
            if j < n - 1 {
                assert(p.contains_key(module.classes@[j].functions@[q].name@));
                assert(start.contains_key(module.classes@[j].functions@[q].name@));
            } else {
                assert(class.functions@[q] == module.classes@[j].functions@[q]);
            }
        }
    }
}

proof fn lemma_index_modules_keys(
    map: Map<Seq<char>, Seq<char>>,
    package: Seq<char>,
    modules: Seq<PythonModule>,
    n: int,
)
    requires
        0 <= n <= modules.len(),
    ensures
        ({
            let m = index_modules(map, package, modules, n);
            &&& forall|k: Seq<char>| map.contains_key(k) ==> #[trigger] m.contains_key(k)
            &&& forall|i: int| 0 <= i < n ==> m.contains_key(#[trigger] modules[i].name@)
            &&& forall|i: int, j: int|
                0 <= i < n && 0 <= j < modules[i].classes@.len() ==> m.contains_key(
                    #[trigger] modules[i].classes@[j].name@,
                )
            &&& forall|i: int, j: int, q: int|
                0 <= i < n && 0 <= j < modules[i].classes@.len() && 0 <= q
                    < modules[i].classes@[j].functions@.len() ==> m.contains_key(
                    #[trigger] modules[i].classes@[j].functions@[q].name@,
                )
            &&& forall|i: int, j: int|
                0 <= i < n && 0 <= j < modules[i].functions@.len() ==> m.contains_key(
                    #[trigger] modules[i].functions@[j].name@,
                )
        }),
    decreases n,
{
    if n > 0 {
        lemma_index_modules_keys(map, package, modules, n - 1);
        let prev = index_modules(map, package, modules, n - 1);
        let module = modules[n - 1];
        let start = prev.insert(module.name@, module_page(package, module.name@));
        let mid = index_classes(start, package, module, module.classes@.len() as int);
        let m = index_modules(map, package, modules, n);
        lemma_index_classes_keys(start, package, module, module.classes@.len() as int);
        lemma_index_functions_keys(mid, package, module, module.functions@.len() as int);
        assert(m == index_functions(mid, package, module, module.functions@.len() as int));
        assert forall|k: Seq<char>| prev.contains_key(k) implies #[trigger] m.contains_key(k) by {
            assert(start.contains_key(k));
            assert(mid.contains_key(k));
        }
        assert forall|k: Seq<char>| map.contains_key(k) implies #[trigger] m.contains_key(k) by {
            assert(prev.contains_key(k));
        }
        assert forall|i: int| 0 <= i < n implies m.contains_key(#[trigger] modules[i].name@) by {
            if i < n - 1 {
                assert(prev.contains_key(modules[i].name@));
            } else {
                assert(start.contains_key(module.name@));
                assert(mid.contains_key(module.name@));
            }
        }
        assert forall|i: int, j: int|
            0 <= i < n && 0 <= j < modules[i].classes@.len() implies m.contains_key(
            #[trigger] modules[i].classes@[j].name@,
        ) by {
            if i < n - 1 {
                assert(prev.contains_key(modules[i].classes@[j].name@));
            } else {
                assert(mid.contains_key(module.classes@[j].name@));
            }
        }
        assert forall|i: int, j: int, q: int|
            0 <= i < n && 0 <= j < modules[i].classes@.len() && 0 <= q
                < modules[i].classes@[j].functions@.len() implies m.contains_key(
            #[trigger] modules[i].classes@[j].functions@[q].name@,
        ) by {
            if i < n - 1 {
                assert(prev.contains_key(modules[i].classes@[j].functions@[q].name@));
            } else {
                assert(mid.contains_key(module.classes@[j].functions@[q].name@));
            }
        }
        assert forall|i: int, j: int|
            0 <= i < n && 0 <= j < modules[i].functions@.len() implies m.contains_key(
            #[trigger] modules[i].functions@[j].name@,
        ) by {
            if i < n - 1 {
                assert(prev.contains_key(modules[i].functions@[j].name@));
            }
        }
    }
}

/// Indexing the methods of a class into `m` is `m` with what they index on
/// their own laid over it.
proof fn lemma_methods_union(
    m: Map<Seq<char>, Seq<char>>,
    package: Seq<char>,
    module: PythonModule,
    class: PythonClass,
    n: int,
)
    ensures
        index_methods(m, package, module, class, n) == m.union_prefer_right(
            index_methods(Map::empty(), package, module, class, n),
        ),
    decreases n,
{
    if n > 0 {
        lemma_methods_union(m, package, module, class, n - 1);
        let method = class.functions@[n - 1];
        let a = index_methods(Map::empty(), package, module, class, n - 1);
        let v = method_anchor(package, module.name@, class.name@, method.name@);
        assert(m.union_prefer_right(a).insert(method.name@, v) =~= m.union_prefer_right(
            a.insert(method.name@, v),
        ));
    } else {
        assert(m.union_prefer_right(Map::empty()) =~= m);
    }
}

/// Indexing the top-level functions of a module into `m` is `m` with what
/// they index on their own laid over it.
proof fn lemma_functions_union(
    m: Map<Seq<char>, Seq<char>>,
    package: Seq<char>,
    module: PythonModule,
    n: int,
)
    ensures
        index_functions(m, package, module, n) == m.union_prefer_right(
            index_functions(Map::empty(), package, module, n),
        ),
    decreases n,
{
    if n > 0 {
        lemma_functions_union(m, package, module, n - 1);
        let function = module.functions@[n - 1];
        let a = index_functions(Map::empty(), package, module, n - 1);
        let v = function_anchor(package, module.name@, function.name@);
        assert(m.union_prefer_right(a).insert(function.name@, v) =~= m.union_prefer_right(
            a.insert(function.name@, v),
        ));
    } else {
        assert(m.union_prefer_right(Map::empty()) =~= m);
    }
}

/// Indexing the classes of a module (each with its methods) into `m` is `m`
/// with what they index on their own laid over it.
proof fn lemma_classes_union(
    m: Map<Seq<char>, Seq<char>>,
    package: Seq<char>,
    module: PythonModule,
    n: int,
)
    ensures
        index_classes(m, package, module, n) == m.union_prefer_right(
            index_classes(Map::empty(), package, module, n),
        ),
    decreases n,
{
    if n > 0 {
        lemma_classes_union(m, package, module, n - 1);
        let class = module.classes@[n - 1];
        let c = index_classes(Map::empty(), package, module, n - 1);
        let v = class_anchor(package, module.name@, class.name@);
        let q = class.functions@.len() as int;
        let with_class = m.union_prefer_right(c).insert(class.name@, v);
        lemma_methods_union(with_class, package, module, class, q);
        lemma_methods_union(c.insert(class.name@, v), package, module, class, q);
        let ms = index_methods(Map::empty(), package, module, class, q);
        assert(with_class.union_prefer_right(ms) =~= m.union_prefer_right(
            c.insert(class.name@, v).union_prefer_right(ms),
        ));
    } else {
        assert(m.union_prefer_right(Map::empty()) =~= m);
    }
}

/// Indexing a module into `m` is `m` with what the module indexes on its own
/// laid over it.
proof fn lemma_module_union(m: Map<Seq<char>, Seq<char>>, package: Seq<char>, module: PythonModule)
    ensures
        index_module(m, package, module) == m.union_prefer_right(
            index_module(Map::empty(), package, module),
        ),
{
    let page = module_page(package, module.name@);
    let nc = module.classes@.len() as int;
    let nf = module.functions@.len() as int;
    let e = Map::<Seq<char>, Seq<char>>::empty().insert(module.name@, page);
    lemma_classes_union(m.insert(module.name@, page), package, module, nc);
    lemma_classes_union(e, package, module, nc);
    let cs = index_classes(Map::empty(), package, module, nc);
    lemma_functions_union(m.insert(module.name@, page).union_prefer_right(cs), package, module, nf);
    lemma_functions_union(e.union_prefer_right(cs), package, module, nf);
    let fs = index_functions(Map::empty(), package, module, nf);
    assert(m.insert(module.name@, page).union_prefer_right(cs).union_prefer_right(fs)
        =~= m.union_prefer_right(e.union_prefer_right(cs).union_prefer_right(fs)));
}

/// Indexing modules into `m` is `m` with what they index on their own laid
/// over it.
proof fn lemma_modules_union(
    m: Map<Seq<char>, Seq<char>>,
    package: Seq<char>,
    modules: Seq<PythonModule>,
    n: int,
)
    ensures
        index_modules(m, package, modules, n) == m.union_prefer_right(
            index_modules(Map::empty(), package, modules, n),
        ),
    decreases n,
{
    if n > 0 {
        lemma_modules_union(m, package, modules, n - 1);
        let a = index_modules(Map::empty(), package, modules, n - 1);
        lemma_module_union(m.union_prefer_right(a), package, modules[n - 1]);
        lemma_module_union(a, package, modules[n - 1]);
        let b = index_module(Map::empty(), package, modules[n - 1]);
        assert(m.union_prefer_right(a).union_prefer_right(b) =~= m.union_prefer_right(
            a.union_prefer_right(b),
        ));
    } else {
        assert(m.union_prefer_right(Map::empty()) =~= m);
    }
}

/// Indexing the same package a second time changes nothing: the symbol map
/// after two calls of `build_index` with one package is the map after one.
pub proof fn lemma_build_index_idempotent(
    old_symbols: Map<Seq<char>, Seq<char>>,
    package: PythonPackage,
)
    ensures
        ({
            let ms = package.modules@;
            let once = index_modules(old_symbols, package.name@, ms, ms.len() as int);
            index_modules(once, package.name@, ms, ms.len() as int) == once
        }),
{
    let ms = package.modules@;
    let n = ms.len() as int;
    let once = index_modules(old_symbols, package.name@, ms, n);
    let d = index_modules(Map::empty(), package.name@, ms, n);
    lemma_modules_union(old_symbols, package.name@, ms, n);
    lemma_modules_union(once, package.name@, ms, n);
    assert(old_symbols.union_prefer_right(d).union_prefer_right(d) =~= old_symbols.union_prefer_right(
        d,
    ));
}

/// Indexing a package makes the name of every module, class, method and
/// top-level function of the package resolvable, and keeps every name that
/// was resolvable before.
pub proof fn lemma_build_index_covers(old_symbols: Map<Seq<char>, Seq<char>>, package: PythonPackage)
    ensures
        ({
            let ms = package.modules@;
            let m = index_modules(old_symbols, package.name@, ms, ms.len() as int);
            &&& forall|k: Seq<char>| old_symbols.contains_key(k) ==> #[trigger] m.contains_key(k)
            &&& forall|i: int| 0 <= i < ms.len() ==> m.contains_key(#[trigger] ms[i].name@)
            &&& forall|i: int, j: int|
                0 <= i < ms.len() && 0 <= j < ms[i].classes@.len() ==> m.contains_key(
                    #[trigger] ms[i].classes@[j].name@,
                )
            &&& forall|i: int, j: int, q: int|
                0 <= i < ms.len() && 0 <= j < ms[i].classes@.len() && 0 <= q
                    < ms[i].classes@[j].functions@.len() ==> m.contains_key(
                    #[trigger] ms[i].classes@[j].functions@[q].name@,
                )
            &&& forall|i: int, j: int|
                0 <= i < ms.len() && 0 <= j < ms[i].functions@.len() ==> m.contains_key(
                    #[trigger] ms[i].functions@[j].name@,
                )
        }),
{
    lemma_index_modules_keys(
        old_symbols,
        package.name@,
        package.modules@,
        package.modules@.len() as int,
    );
}

} // verus!
