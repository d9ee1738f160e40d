//! Records shared by the language analyzers: re-exports of barrel files,
//! import mappings, file mappings and the specifier-to-symbols table.

use vstd::prelude::*;
use crate::text::{clone_strings, opt_string_view, strings_view};

verus! {

/// A re-export found in a barrel (index) file.
#[derive(Debug)]
pub struct BarrelReExport {
    /// The re-exported symbols (empty for wildcards).
    pub symbols: Vec<String>,
    /// Where the symbols come from, as a relative specifier (`./module`).
    pub from_specifier: String,
    /// Everything from `from_specifier` is re-exported.
    pub wildcard: bool,
    /// The re-export is a namespace wildcard (`* as name`).
    pub namespace_wildcard: bool,
}

/// The mathematical content of a [`BarrelReExport`].
pub struct BarrelReExportView {
    pub symbols: Seq<Seq<char>>,
    pub from_specifier: Seq<char>,
    pub wildcard: bool,
    pub namespace_wildcard: bool,
}

impl View for BarrelReExport {
    type V = BarrelReExportView;

    open spec fn view(&self) -> BarrelReExportView {
        BarrelReExportView {
            symbols: strings_view(self.symbols@),
            from_specifier: self.from_specifier@,
            wildcard: self.wildcard,
            namespace_wildcard: self.namespace_wildcard,
        }
    }
}

/// The views of a sequence of re-exports.
pub open spec fn reexports_view(v: Seq<BarrelReExport>) -> Seq<BarrelReExportView> {
    v.map_values(|r: BarrelReExport| r@)
}

/// How a test file came to be mapped to a production file.
#[derive(PartialEq, Eq, Structural, Clone, Copy, Debug)]
pub enum MappingStrategy {
    /// By file-name convention.
    FileNameConvention,
    /// By following the test's imports.
    ImportTracing,
}

/// One import of a test file.
#[derive(Debug)]
pub struct ImportMapping {
    /// The imported symbol.
    pub symbol_name: String,
    /// The module it is imported from, as a path specifier.
    pub module_specifier: String,
    /// The importing file.
    pub file: String,
    /// The line of the import (1-based).
    pub line: usize,
    /// All symbols imported from the same specifier.
    pub symbols: Vec<String>,
}

/// A table from specifier to the symbols imported from it, kept in the order
/// in which specifiers were first seen.
pub open spec fn table_view(v: Seq<(String, Vec<String>)>) -> Seq<(Seq<char>, Seq<Seq<char>>)> {
    v.map_values(|e: (String, Vec<String>)| (e.0@, strings_view(e.1@)))
}

/// The position of key `k` in table `m`.
pub open spec fn key_index(m: Seq<(Seq<char>, Seq<Seq<char>>)>, k: Seq<char>) -> Option<int>
    decreases m.len(),
{
    if m.len() == 0 {
        None
    } else if m.last().0 == k {
        Some(m.len() - 1)
    } else {
        key_index(m.drop_last(), k)
    }
}

/// No key occurs twice in table `m`.
pub open spec fn keys_unique(m: Seq<(Seq<char>, Seq<Seq<char>>)>) -> bool {
    forall|i: int, j: int| 0 <= i < j < m.len() ==> m[i].0 != m[j].0
}

/// `HashMap::entry(k).or_default().extend(syms)` on a table.
pub open spec fn table_extend(
    m: Seq<(Seq<char>, Seq<Seq<char>>)>,
    k: Seq<char>,
    syms: Seq<Seq<char>>,
) -> Seq<(Seq<char>, Seq<Seq<char>>)> {
    match key_index(m, k) {
        Some(i) => m.update(i, (k, m[i].1 + syms)),
        None => m.push((k, syms)),
    }
}

/// `HashMap::entry(k).or_insert(syms)` on a table: a key already present
/// keeps its symbols.
pub open spec fn table_insert_absent(
    m: Seq<(Seq<char>, Seq<Seq<char>>)>,
    k: Seq<char>,
    syms: Seq<Seq<char>>,
) -> Seq<(Seq<char>, Seq<Seq<char>>)> {
    match key_index(m, k) {
        Some(i) => m,
        None => m.push((k, syms)),
    }
}

/// The key of each entry: `key_index` finds exactly the entries with key `k`.
pub proof fn lemma_key_index(m: Seq<(Seq<char>, Seq<Seq<char>>)>, k: Seq<char>)
    ensures
        key_index(m, k) matches Some(i) ==> 0 <= i < m.len() && m[i].0 == k,
        key_index(m, k) is None ==> forall|j: int| 0 <= j < m.len() ==> m[j].0 != k,
    decreases m.len(),
{
    if m.len() > 0 {
        lemma_key_index(m.drop_last(), k);
        assert forall|j: int| 0 <= j < m.len() - 1 implies m.drop_last()[j] == m[j] by {}
    }
}

/// Extending a table keeps its keys unique.
pub proof fn lemma_table_extend_unique(
    m: Seq<(Seq<char>, Seq<Seq<char>>)>,
    k: Seq<char>,
    syms: Seq<Seq<char>>,
)
    requires
        keys_unique(m),
    ensures
        keys_unique(table_extend(m, k, syms)),
        keys_unique(table_insert_absent(m, k, syms)),
{
    lemma_key_index(m, k);
}

/// The position of `key` in the table `m`.
fn table_find(m: &Vec<(String, Vec<String>)>, key: &String) -> (r: Option<usize>)
    ensures
        match r {
            Some(x) => key_index(table_view(m@), key@) == Some(x as int),
            None => key_index(table_view(m@), key@) is None,
        },
{
    let mut i = m.len();
    while i > 0
        invariant
            i <= m@.len(),
            forall|j: int| i <= j < m@.len() ==> table_view(m@)[j].0 != key@,
        decreases i,
    {
        if m[i - 1].0 == *key {
            proof {
                lemma_key_index_scan(table_view(m@), key@, i as int);
            }
            return Some(i - 1);
        }
        i = i - 1;
    }
    proof {
        lemma_key_index_scan(table_view(m@), key@, 0);
    }
    None
}

proof fn lemma_key_index_scan(m: Seq<(Seq<char>, Seq<Seq<char>>)>, k: Seq<char>, i: int)
    requires
        0 <= i <= m.len(),
        forall|j: int| i <= j < m.len() ==> m[j].0 != k,
    ensures
        i > 0 && m[i - 1].0 == k ==> key_index(m, k) == Some(i - 1),
        i == 0 ==> key_index(m, k) is None,
    decreases m.len() - i,
{
    if i < m.len() {
        lemma_key_index_scan(m.drop_last(), k, i);
    }
}

/// Append `syms` to the symbols of `key`, adding `key` when it is new.
pub fn table_extend_exec(m: &mut Vec<(String, Vec<String>)>, key: String, syms: Vec<String>)
    ensures
        table_view(final(m)@) == table_extend(table_view(old(m)@), key@, strings_view(syms@)),
{
    let found = table_find(m, &key);
    proof {
        lemma_key_index(table_view(m@), key@);
    }
    match found {
        Some(i) => {
            let ghost ki = key_index(table_view(m@), key@);
            assert(ki is Some);
            assert(ki->0 == i as int);
            assert(table_view(m@)[i as int].0 == key@);
            let (k0, mut list) = m.remove(i);
            let ghost old_list = list@;
            let mut j: usize = 0;
            while j < syms.len()
                invariant
                    j <= syms@.len(),
                    list@ == old_list + syms@.take(j as int),
                decreases syms@.len() - j,
            {
                list.push(syms[j].clone());
                j = j + 1;
                assert(list@ =~= old_list + syms@.take(j as int));
            }
            assert(syms@.take(syms@.len() as int) == syms@);
            assert(strings_view(list@) =~= strings_view(old_list) + strings_view(syms@));
            let ghost entry = (k0, list);
            m.insert(i, (k0, list));
            assert(m@ =~= old(m)@.update(i as int, entry));
            assert(table_view(m@) =~= table_extend(
                table_view(old(m)@),
                key@,
                strings_view(syms@),
            ));
        },
        None => {
            m.push((key, syms));
            assert(table_view(m@) =~= table_extend(
                table_view(old(m)@),
                key@,
                strings_view(syms@),
            ));
        },
    }
}

/// Add `key` with `syms` unless `key` is already present.
pub fn table_insert_absent_exec(m: &mut Vec<(String, Vec<String>)>, key: String, syms: Vec<String>)
    ensures
        table_view(final(m)@) == table_insert_absent(
            table_view(old(m)@),
            key@,
            strings_view(syms@),
        ),
{
    match table_find(m, &key) {
        Some(i) => {},
        None => {
            m.push((key, syms));
            assert(table_view(m@) =~= table_insert_absent(
                table_view(old(m)@),
                key@,
                strings_view(syms@),
            ));
        },
    }
}

/// The mathematical content of an [`ImportMapping`].
pub struct ImportMappingView {
    pub symbol_name: Seq<char>,
    pub module_specifier: Seq<char>,
    pub file: Seq<char>,
    pub line: usize,
    pub symbols: Seq<Seq<char>>,
}

impl View for ImportMapping {
    type V = ImportMappingView;

    open spec fn view(&self) -> ImportMappingView {
        ImportMappingView {
            symbol_name: self.symbol_name@,
            module_specifier: self.module_specifier@,
            file: self.file@,
            line: self.line,
            symbols: strings_view(self.symbols@),
        }
    }
}

/// The views of a sequence of import mappings.
pub open spec fn mappings_view(v: Seq<ImportMapping>) -> Seq<ImportMappingView> {
    v.map_values(|m: ImportMapping| m@)
}

/// One mapping per symbol of the entry `(spec, syms)`, symbols `0..n`.
pub open spec fn entry_mappings(
    spec: Seq<char>,
    syms: Seq<Seq<char>>,
    file: Seq<char>,
    line: usize,
    n: int,
) -> Seq<ImportMappingView>
    decreases n,
{
    if n <= 0 {
        Seq::<ImportMappingView>::empty()
    } else {
        entry_mappings(spec, syms, file, line, n - 1).push(
            ImportMappingView {
                symbol_name: syms[n - 1],
                module_specifier: spec,
                file: file,
                line: line,
                symbols: syms,
            },
        )
    }
}

/// The mappings of the first `n` entries of table `m`, all on line `line`.
pub open spec fn table_mappings(
    m: Seq<(Seq<char>, Seq<Seq<char>>)>,
    file: Seq<char>,
    line: usize,
    n: int,
) -> Seq<ImportMappingView>
    decreases n,
{
    if n <= 0 {
        Seq::<ImportMappingView>::empty()
    } else {
        table_mappings(m, file, line, n - 1) + entry_mappings(
            m[n - 1].0,
            m[n - 1].1,
            file,
            line,
            m[n - 1].1.len() as int,
        )
    }
}

/// One mapping per symbol of each entry of the table, every mapping
/// carrying all the symbols of its entry and line `line`.
pub fn table_to_mappings(m: &Vec<(String, Vec<String>)>, file: &str, line: usize) -> (r: Vec<
    ImportMapping,
>)
    ensures
        mappings_view(r@) == table_mappings(table_view(m@), file@, line, m@.len() as int),
{
    let ghost tv = table_view(m@);
    let mut out: Vec<ImportMapping> = Vec::new();
    let mut i: usize = 0;
    while i < m.len()
        invariant
            tv == table_view(m@),
            i <= m@.len(),
            mappings_view(out@) == table_mappings(tv, file@, line, i as int),
        decreases m@.len() - i,
    {
        let ghost base = mappings_view(out@);
        let spec = &m[i].0;
        let syms = &m[i].1;
        assert(tv[i as int].0 == spec@);
        assert(tv[i as int].1 == strings_view(syms@));
        let mut j: usize = 0;
        while j < syms.len()
            invariant
                tv == table_view(m@),
                i < m@.len(),
                tv[i as int].0 == spec@,
                tv[i as int].1 == strings_view(syms@),
                j <= syms@.len(),
                mappings_view(out@) == base + entry_mappings(
                    spec@,
                    strings_view(syms@),
                    file@,
                    line,
                    j as int,
                ),
            decreases syms@.len() - j,
        {
            let mapping = ImportMapping {
                symbol_name: syms[j].clone(),
                module_specifier: spec.clone(),
                file: String::from_str(file),
                line: line,
                symbols: clone_strings(syms),
            };
            let ghost before = mappings_view(out@);
            out.push(mapping);
            assert(mappings_view(out@) =~= before.push(mapping@));
            j = j + 1;
        }
        i = i + 1;
    }
    out
}


/// A function or method defined in a production file.
#[derive(Debug)]
pub struct ProductionFunction {
    /// The function's name.
    pub name: String,
    /// The file that defines it.
    pub file: String,
    /// The line of its name (1-based).
    pub line: usize,
    /// The class (Python) or type (Rust `impl`) it is a method of.
    pub class_name: Option<String>,
    /// It is visible outside its module.
    pub is_exported: bool,
}

/// The mathematical content of a [`ProductionFunction`].
pub struct ProductionFunctionView {
    pub name: Seq<char>,
    pub file: Seq<char>,
    pub line: usize,
    pub class_name: Option<Seq<char>>,
    pub is_exported: bool,
}

impl View for ProductionFunction {
    type V = ProductionFunctionView;

    open spec fn view(&self) -> ProductionFunctionView {
        ProductionFunctionView {
            name: self.name@,
            file: self.file@,
            line: self.line,
            class_name: opt_string_view(self.class_name),
            is_exported: self.is_exported,
        }
    }
}

/// The views of a list of production functions.
pub open spec fn functions_view(v: Seq<ProductionFunction>) -> Seq<ProductionFunctionView> {
    v.map_values(|f: ProductionFunction| f@)
}

/// `fs` with `f` appended unless a function with the same name and class
/// is already listed.
pub open spec fn add_function(fs: Seq<ProductionFunctionView>, f: ProductionFunctionView) -> Seq<
    ProductionFunctionView,
> {
    if exists|i: int| 0 <= i < fs.len() && fs[i].name == f.name && fs[i].class_name == f.class_name {
        fs
    } else {
        fs.push(f)
    }
}

fn same_opt_string(a: &Option<String>, b: &Option<String>) -> (r: bool)
    ensures
        r == (opt_string_view(*a) == opt_string_view(*b)),
{
    match (a, b) {
        (Some(x), Some(y)) => *x == *y,
        (None, None) => true,
        _ => false,
    }
}

/// Append `f` to `fs` unless a function with the same name and class is
/// already listed.
pub fn add_function_exec(fs: &mut Vec<ProductionFunction>, f: ProductionFunction)
    ensures
        functions_view(final(fs)@) == add_function(functions_view(old(fs)@), f@),
{
    let ghost before = functions_view(fs@);
    let mut i: usize = 0;
    let mut dup = false;
    while i < fs.len() && !dup
        invariant
            before == functions_view(fs@),
            i <= fs@.len(),
            dup ==> exists|k: int|
                0 <= k < before.len() && before[k].name == f@.name && before[k].class_name
                    == f@.class_name,
            !dup ==> forall|k: int|
                0 <= k < i ==> !(before[k].name == f@.name && before[k].class_name
                    == f@.class_name),
        decreases fs@.len() - i + (if dup { 0int } else { 1int }),
    {
        if fs[i].name == f.name && same_opt_string(&fs[i].class_name, &f.class_name) {
            assert(before[i as int].name == f@.name && before[i as int].class_name
                == f@.class_name);
            dup = true;
        } else {
            i = i + 1;
        }
    }
    if !dup {
        let ghost fv = f@;
        fs.push(f);
        assert(functions_view(fs@) =~= before.push(fv));
    }
}

} // verus!
