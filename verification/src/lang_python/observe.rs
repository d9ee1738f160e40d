//! Python file-name conventions and import-specifier handling used to map
//! tests to the production code they exercise.

use vstd::prelude::*;
use crate::syntax::{
    SyntaxNode, SyntaxNodeView, child_by_field, child_by_field_exec, field_is, kids, kids_exec,
    kind_is, nodes_view, parse_python, python_syntax, lemma_subtree_end, subtree_end, parent_of,
    parent_exec,
    subtree_end_exec,
};
use crate::paths::{
    file_name, file_name_range, file_stem, parent_file_name, parent_name_range, stem_range,
};
use crate::text::{
    repeat, replace_chars, replace_seq, trim_start_by, string_of,
    chars_of, ends_with, eq_chars, eq_lit, eq_lit_range, opt_view, rfind_char, rfind_char_exec,
    split_char, split_char_exec, starts_with, starts_with_lit, strip_prefix, strip_prefix_range,
    strip_suffix, strip_suffix_range, trim_char, trim_char_exec, ends_with_lit, nested_view,
    opt_string_view, sort_dedup, sorted_elems, strings_view, clone_strings, contains_string,
    push_new, strictly_sorted, lemma_sorted_elems, trim_quotes, trim_quotes_exec, lex_lt,
    lemma_lex_total,
};
use crate::observe::{
    ProductionFunction, ProductionFunctionView, add_function, add_function_exec, functions_view,
    BarrelReExport, BarrelReExportView, reexports_view,
    ImportMapping, ImportMappingView, mappings_view,
    keys_unique, lemma_table_extend_unique, table_extend, key_index, lemma_key_index, table_extend_exec, table_insert_absent,
    table_insert_absent_exec, table_view,
};
pub use crate::lang_python::routes::{
    Route, extract_django_routes, extract_routes, normalize_django_path, normalize_re_path,
};

verus! {

// ---------------------------------------------------------------------------
// Stem helpers
// ---------------------------------------------------------------------------

/// The stem of a Django `tests.py`: the name of the directory that holds it.
pub open spec fn django_parent_stem(path: Seq<char>) -> Option<Seq<char>> {
    match rfind_char(path, '/') {
        None => None,
        Some(sep) => {
            let start = match rfind_char(path.take(sep), '/') {
                Some(i) => i + 1,
                None => 0,
            };
            let parent = path.subrange(start, sep);
            if parent.len() == 0 {
                None
            } else {
                Some(parent)
            }
        },
    }
}

/// What `test_stem` gives for a Python path: for `test_X.py` and `X_test.py`
/// the `X`, for a Django `tests.py` the enclosing directory's name.
pub open spec fn py_test_stem(path: Seq<char>) -> Option<Seq<char>> {
    match file_name(path) {
        None => None,
        Some(name) => match strip_suffix(name, ".py"@) {
            None => None,
            Some(stem) => match strip_prefix(stem, "test_"@) {
                Some(rest) => Some(rest),
                None => match strip_suffix(stem, "_test"@) {
                    Some(rest) => Some(rest),
                    None => if stem == "tests"@ {
                        django_parent_stem(path)
                    } else {
                        None
                    },
                },
            },
        },
    }
}

/// The stem of a `.py` file name that `production_stem` rejects outright:
/// package markers, Django test modules and test files.
pub open spec fn py_excluded_stem(stem: Seq<char>) -> bool {
    ||| stem == "__init__"@
    ||| stem == "tests"@
    ||| starts_with(stem, "test_"@)
    ||| ends_with(stem, "_test"@)
}

/// The stem with one leading `_` and then one trailing `__` removed.
pub open spec fn py_strip_underscores(stem: Seq<char>) -> Seq<char> {
    let s1 = match strip_prefix(stem, "_"@) {
        Some(r) => r,
        None => stem,
    };
    match strip_suffix(s1, "__"@) {
        Some(r) => r,
        None => s1,
    }
}

/// What `production_stem` gives for a Python path.
pub open spec fn py_production_stem(path: Seq<char>) -> Option<Seq<char>> {
    match file_name(path) {
        None => None,
        Some(name) => match strip_suffix(name, ".py"@) {
            None => None,
            Some(stem) => if py_excluded_stem(stem) {
                None
            } else {
                Some(py_strip_underscores(stem))
            },
        },
    }
}

/// Extract stem from a test file path.
/// `test_user.py` -> `Some("user")`
/// `user_test.py` -> `Some("user")`
/// Other files -> `None`
pub fn test_stem(path: &str) -> (r: Option<&str>)
    ensures
        opt_view(r) == py_test_stem(path@),
{
    let v = chars_of(path);
    let (a, b) = match file_name_range(v.as_slice()) {
        Some(r) => r,
        None => return None,
    };
    let e = match strip_suffix_range(v.as_slice(), a, b, ".py") {
        Some(e) => e,
        None => return None,
    };
    if let Some(k) = strip_prefix_range(v.as_slice(), a, e, "test_") {
        return Some(path.substring_char(k, e));
    }
    if let Some(k) = strip_suffix_range(v.as_slice(), a, e, "_test") {
        return Some(path.substring_char(a, k));
    }
    if eq_lit_range(v.as_slice(), a, e, "tests") {
        let sep = match rfind_char_exec(v.as_slice(), '/') {
            Some(s) => s,
            None => return None,
        };
        proof {
            crate::text::lemma_rfind_char_props(v@, '/');
        }
        let before = vstd::slice::slice_subrange(v.as_slice(), 0, sep);
        assert(before@ == v@.take(sep as int));
        let start = match rfind_char_exec(before, '/') {
            Some(i) => {
                proof {
                    crate::text::lemma_rfind_char_props(before@, '/');
                }
                i + 1
            },
            None => 0,
        };
        if start == sep {
            return None;
        }
        return Some(path.substring_char(start, sep));
    }
    None
}

/// Extract stem from a production file path.
/// `user.py` -> `Some("user")`
/// `_decoders.py` -> `Some("decoders")` (leading `_` stripped)
/// `__init__.py` -> `None`
/// `test_user.py` -> `None`
pub fn production_stem(path: &str) -> (r: Option<&str>)
    ensures
        opt_view(r) == py_production_stem(path@),
{
    let v = chars_of(path);
    let (a, b) = match file_name_range(v.as_slice()) {
        Some(r) => r,
        None => return None,
    };
    let e = match strip_suffix_range(v.as_slice(), a, b, ".py") {
        Some(e) => e,
        None => return None,
    };
    let s = vstd::slice::slice_subrange(v.as_slice(), a, e);
    if eq_lit(s, "__init__") || eq_lit(s, "tests") || starts_with_lit(s, "test_")
        || ends_with_lit(s, "_test") {
        return None;
    }
    let a1 = match strip_prefix_range(v.as_slice(), a, e, "_") {
        Some(k) => k,
        None => a,
    };
    let e1 = match strip_suffix_range(v.as_slice(), a1, e, "__") {
        Some(k) => k,
        None => e,
    };
    Some(path.substring_char(a1, e1))
}

/// Whether some `/`-separated piece of `path` is `tests` or `test`.
pub open spec fn in_test_dir(path: Seq<char>) -> bool {
    exists|i: int|
        0 <= i < split_char(path, '/').len() && (#[trigger] split_char(path, '/')[i] == "tests"@
            || split_char(path, '/')[i] == "test"@)
}

/// The file stem of `path`, or the empty text when it has none.
pub open spec fn stem_or_empty(path: Seq<char>) -> Seq<char> {
    match file_stem(path) {
        Some(s) => s,
        None => Seq::<char>::empty(),
    }
}

/// The file name of `path`, or the empty text when it has none.
pub open spec fn name_or_empty(path: Seq<char>) -> Seq<char> {
    match file_name(path) {
        Some(s) => s,
        None => Seq::<char>::empty(),
    }
}

/// Files that are never a subject under test, whatever the caller knows:
/// anything inside a `tests`/`test` directory, package metadata,
/// type-definition modules and mock modules.
pub open spec fn py_always_helper(path: Seq<char>) -> bool {
    let stem = stem_or_empty(path);
    let normalized = trim_char(stem, '_');
    ||| in_test_dir(path)
    ||| stem == "__version__"@
    ||| normalized == "types"@
    ||| ends_with(normalized, "_types"@)
    ||| stem == "mock"@
    ||| starts_with(stem, "mock_"@)
}

/// Files that are helpers unless the caller knows them to be production
/// code: well-known support files and anything in `__pycache__`.
pub open spec fn py_conventional_helper(path: Seq<char>) -> bool {
    let name = name_or_empty(path);
    ||| name == "conftest.py"@
    ||| name == "constants.py"@
    ||| name == "setup.py"@
    ||| name == "__init__.py"@
    ||| parent_file_name(path) == Some("__pycache__"@)
}

/// What `is_non_sut_helper` decides for a Python path.
pub open spec fn py_is_non_sut_helper(path: Seq<char>, is_known_production: bool) -> bool {
    py_always_helper(path) || (!is_known_production && py_conventional_helper(path))
}

fn in_test_dir_exec(v: &[char]) -> (r: bool)
    ensures
        r == in_test_dir(v@),
{
    let segs = split_char_exec(v, '/');
    let ghost sv = nested_view(segs@);
    let mut i: usize = 0;
    while i < segs.len()
        invariant
            sv == nested_view(segs@),
            sv == split_char(v@, '/'),
            i <= segs@.len(),
            forall|j: int| 0 <= j < i ==> !(sv[j] == "tests"@ || sv[j] == "test"@),
        decreases segs@.len() - i,
    {
        assert(segs@[i as int]@ == sv[i as int]);
        if eq_lit(segs[i].as_slice(), "tests") || eq_lit(segs[i].as_slice(), "test") {
            return true;
        }
        i = i + 1;
    }
    false
}

/// Determine if a file is a non-SUT helper (should be excluded from mapping).
pub fn is_non_sut_helper(file_path: &str, is_known_production: bool) -> (r: bool)
    ensures
        r == py_is_non_sut_helper(file_path@, is_known_production),
{
    let v = chars_of(file_path);
    if in_test_dir_exec(v.as_slice()) {
        return true;
    }
    let stem: Vec<char> = match file_name_range(v.as_slice()) {
        Some((a, b)) => {
            let (x, y) = stem_range(v.as_slice(), a, b);
            crate::text::slice_chars(v.as_slice(), x, y)
        },
        None => Vec::new(),
    };
    assert(stem@ == stem_or_empty(v@));
    if eq_lit(stem.as_slice(), "__version__") {
        return true;
    }
    let normalized = trim_char_exec(stem.as_slice(), '_');
    if eq_lit(normalized.as_slice(), "types") || ends_with_lit(normalized.as_slice(), "_types") {
        return true;
    }
    if eq_lit(stem.as_slice(), "mock") || starts_with_lit(stem.as_slice(), "mock_") {
        return true;
    }
    if is_known_production {
        return false;
    }
    let name: Vec<char> = match file_name_range(v.as_slice()) {
        Some((a, b)) => crate::text::slice_chars(v.as_slice(), a, b),
        None => Vec::new(),
    };
    assert(name@ == name_or_empty(v@));
    if eq_lit(name.as_slice(), "conftest.py") || eq_lit(name.as_slice(), "constants.py")
        || eq_lit(name.as_slice(), "setup.py") || eq_lit(name.as_slice(), "__init__.py") {
        return true;
    }
    match parent_name_range(v.as_slice()) {
        Some((a, b)) => {
            let r = eq_lit_range(v.as_slice(), a, b, "__pycache__");
            assert(r ==> parent_file_name(v@) == Some("__pycache__"@));
            assert(parent_file_name(v@) == Some("__pycache__"@) ==> r);
            r
        },
        None => false,
    }
}

// ---------------------------------------------------------------------------
// Module path conversion helpers
// ---------------------------------------------------------------------------

/// The number of leading `.` characters of `s`.
pub open spec fn leading_dots(s: Seq<char>) -> nat
    decreases s.len(),
{
    if s.len() > 0 && s[0] == '.' {
        1 + leading_dots(s.skip(1))
    } else {
        0
    }
}

/// The path specifier of a Python module as written after `from`:
/// `.models` -> `./models`, `..utils` -> `../utils`, `...x` -> `../../x`;
/// bare dots (`.`, `..`) are kept as they are (callers read them as a bare
/// relative import, see [`py_from_base`]); a module without leading dots
/// is kept.
pub open spec fn py_relative_specifier(module: Seq<char>) -> Seq<char> {
    let d = leading_dots(module);
    let rest = module.skip(d as int);
    if d == 0 || rest.len() == 0 {
        module
    } else if d == 1 {
        "./"@ + rest
    } else {
        repeat("../"@, (d - 1) as nat) + rest
    }
}

/// The module is made of dots only (`from . import x`, `from .. import x`).
pub open spec fn is_bare_dots(module: Seq<char>) -> bool {
    module.len() > 0 && leading_dots(module) == module.len()
}

/// The directory that `d` bare dots name: `./` for one dot, `../` for
/// two, `../../` for three, and so on.
pub open spec fn bare_dots_prefix(d: nat) -> Seq<char> {
    if d <= 1 {
        "./"@
    } else {
        repeat("../"@, (d - 1) as nat)
    }
}

/// The base specifier of a `from` import: bare dots read as the directory
/// they name, any other module as [`py_relative_specifier`] gives it.
pub open spec fn py_from_base(module: Seq<char>) -> Seq<char> {
    if is_bare_dots(module) {
        bare_dots_prefix(leading_dots(module))
    } else {
        py_relative_specifier(module)
    }
}

/// The path specifier of an absolute module: dots become `/`
/// (`myapp.models` -> `myapp/models`); relative modules as above.
pub open spec fn py_absolute_specifier(module: Seq<char>) -> Seq<char> {
    if module.len() > 0 && module[0] == '.' {
        py_relative_specifier(module)
    } else {
        replace_seq(module, "."@, "/"@)
    }
}

proof fn lemma_leading_dots(s: Seq<char>, i: int)
    requires
        0 <= i <= s.len(),
        forall|j: int| 0 <= j < i ==> s[j] == '.',
    ensures
        leading_dots(s) == i + leading_dots(s.skip(i)),
    decreases i,
{
    if i > 0 {
        assert(s.skip(1).skip(i - 1) == s.skip(i));
        assert forall|j: int| 0 <= j < i - 1 implies s.skip(1)[j] == '.' by {
            assert(s.skip(1)[j] == s[j + 1]);
        }
        lemma_leading_dots(s.skip(1), i - 1);
    } else {
        assert(s.skip(0) =~= s);
    }
}

/// Convert a Python module specifier (as written after `from`) to a
/// relative path specifier.
pub fn python_module_to_relative_specifier(module: &str) -> (r: String)
    ensures
        r@ == py_relative_specifier(module@),
{
    let v = chars_of(module);
    let mut d: usize = 0;
    while d < v.len() && v[d] == '.'
        invariant
            d <= v@.len(),
            forall|j: int| 0 <= j < d ==> v@[j] == '.',
        decreases v@.len() - d,
    {
        d = d + 1;
    }
    proof {
        lemma_leading_dots(v@, d as int);
        if d < v@.len() {
            assert(v@.skip(d as int)[0] != '.');
        }
        assert(leading_dots(v@.skip(d as int)) == 0);
    }
    if d == 0 || d == v.len() {
        return String::from_str(module);
    }
    let rest = vstd::slice::slice_subrange(v.as_slice(), d, v.len());
    assert(rest@ == v@.skip(d as int));
    let mut out = String::new();
    if d == 1 {
        out.append("./");
    } else {
        let mut k: usize = 1;
        assert(repeat("../"@, 0) == Seq::<char>::empty());
        while k < d
            invariant
                1 <= k <= d,
                out@ == repeat("../"@, (k - 1) as nat),
            decreases d - k,
        {
            out.append("../");
            k = k + 1;
        }
    }
    let tail = string_of(rest);
    out.append(tail.as_str());
    out
}

/// `module` is made of dots only.
fn bare_dots_exec(module: &str) -> (r: bool)
    ensures
        r == is_bare_dots(module@),
{
    let v = chars_of(module);
    let mut d: usize = 0;
    while d < v.len() && v[d] == '.'
        invariant
            d <= v@.len(),
            forall|j: int| 0 <= j < d ==> v@[j] == '.',
        decreases v@.len() - d,
    {
        d = d + 1;
    }
    proof {
        lemma_leading_dots(v@, d as int);
        if d < v@.len() {
            assert(v@.skip(d as int)[0] != '.');
        }
        assert(leading_dots(v@.skip(d as int)) == 0);
    }
    d > 0 && d == v.len()
}

/// The base specifier of a `from` import (see [`py_from_base`]).
fn from_import_base(module: &str) -> (r: String)
    ensures
        r@ == py_from_base(module@),
{
    let v = chars_of(module);
    let mut d: usize = 0;
    while d < v.len() && v[d] == '.'
        invariant
            d <= v@.len(),
            forall|j: int| 0 <= j < d ==> v@[j] == '.',
        decreases v@.len() - d,
    {
        d = d + 1;
    }
    proof {
        lemma_leading_dots(v@, d as int);
        if d < v@.len() {
            assert(v@.skip(d as int)[0] != '.');
        }
        assert(leading_dots(v@.skip(d as int)) == 0);
    }
    if d == 0 || d < v.len() {
        return python_module_to_relative_specifier(module);
    }
    let mut out = String::new();
    if d == 1 {
        out.append("./");
    } else {
        let mut k: usize = 1;
        assert(repeat("../"@, 0) == Seq::<char>::empty());
        while k < d
            invariant
                1 <= k <= d,
                out@ == repeat("../"@, (k - 1) as nat),
            decreases d - k,
        {
            out.append("../");
            k = k + 1;
        }
    }
    out
}

/// Convert a Python absolute module path to a file-system path specifier
/// (`myapp.models` -> `myapp/models`).
pub fn python_module_to_absolute_specifier(module: &str) -> (r: String)
    ensures
        r@ == py_absolute_specifier(module@),
{
    let v = chars_of(module);
    if v.len() > 0 && v[0] == '.' {
        return python_module_to_relative_specifier(module);
    }
    let from = chars_of(".");
    let to = chars_of("/");
    let out = replace_chars(v.as_slice(), from.as_slice(), to.as_slice());
    string_of(out.as_slice())
}

// ---------------------------------------------------------------------------
// String literals
// ---------------------------------------------------------------------------

/// A Python string-prefix letter (`r`, `b`, `f`, `u`, either case).
pub open spec fn is_string_prefix_letter(c: char) -> bool {
    c == 'r' || c == 'R' || c == 'b' || c == 'B' || c == 'f' || c == 'F' || c == 'u' || c == 'U'
}

/// The predicate form of [`is_string_prefix_letter`].
pub open spec fn string_prefix_letter() -> spec_fn(char) -> bool {
    |c: char| is_string_prefix_letter(c)
}

/// The text between the quote `q` at the start and the quote `q` at the end.
pub open spec fn unquote_with(raw: Seq<char>, q: Seq<char>) -> Option<Seq<char>> {
    match strip_prefix(raw, q) {
        Some(s) => strip_suffix(s, q),
        None => None,
    }
}

/// A Python string literal without its prefix letters and surrounding
/// quotes (triple quotes tried first); text that is not quoted is kept.
pub open spec fn py_unquote(raw0: Seq<char>) -> Seq<char> {
    let raw = trim_start_by(raw0, string_prefix_letter());
    match unquote_with(raw, "\"\"\""@) {
        Some(inner) => inner,
        None => match unquote_with(raw, "'''"@) {
            Some(inner) => inner,
            None => match unquote_with(raw, "\""@) {
                Some(inner) => inner,
                None => match unquote_with(raw, "'"@) {
                    Some(inner) => inner,
                    None => raw,
                },
            },
        },
    }
}

/// The text between quote `q` at both ends of `v[a..v.len()]`.
fn unquote_range(v: &[char], a: usize, q: &str) -> (r: Option<(usize, usize)>)
    requires
        a <= v@.len(),
    ensures
        match unquote_with(v@.skip(a as int), q@) {
            Some(inner) => r matches Some((x, y)) && x <= y <= v@.len() && inner == v@.subrange(
                x as int,
                y as int,
            ),
            None => r is None,
        },
{
    let n = v.len();
    assert(v@.subrange(a as int, n as int) == v@.skip(a as int));
    match strip_prefix_range(v, a, n, q) {
        Some(k) => match strip_suffix_range(v, k, n, q) {
            Some(e) => Some((k, e)),
            None => None,
        },
        None => None,
    }
}

/// Strip surrounding quotes (and string-prefix letters) from a Python
/// string literal: `'/users'` -> `/users`, `r"x"` -> `x`, triple quotes too.
pub fn strip_string_quotes(raw: &str) -> (r: String)
    ensures
        r@ == py_unquote(raw@),
{
    let v = chars_of(raw);
    let mut a: usize = 0;
    while a < v.len() && (v[a] == 'r' || v[a] == 'R' || v[a] == 'b' || v[a] == 'B' || v[a]
        == 'f' || v[a] == 'F' || v[a] == 'u' || v[a] == 'U')
        invariant
            a <= v@.len(),
            forall|j: int| 0 <= j < a ==> is_string_prefix_letter(#[trigger] v@[j]),
        decreases v@.len() - a,
    {
        a = a + 1;
    }
    proof {
        crate::text::lemma_trim_start_by_skip(v@, string_prefix_letter(), a as int);
        if a < v@.len() {
            assert(!is_string_prefix_letter(v@.skip(a as int)[0]));
        }
        assert(trim_start_by(v@.skip(a as int), string_prefix_letter()) == v@.skip(a as int));
    }
    let (x, y) = if let Some(p) = unquote_range(v.as_slice(), a, "\"\"\"") {
        p
    } else if let Some(p) = unquote_range(v.as_slice(), a, "'''") {
        p
    } else if let Some(p) = unquote_range(v.as_slice(), a, "\"") {
        p
    } else if let Some(p) = unquote_range(v.as_slice(), a, "'") {
        p
    } else {
        (a, v.len())
    };
    assert(v@.subrange(a as int, v@.len() as int) == v@.skip(a as int));
    string_of(vstd::slice::slice_subrange(v.as_slice(), x, y))
}

// ---------------------------------------------------------------------------
// Import statements
// ---------------------------------------------------------------------------

/// One import read from a Python syntax tree: a bare `import a.b` (with
/// `module` the dotted name), one symbol of a `from m import s`, or the
/// `*` of a `from m import *`.
pub struct PyImport {
    /// A bare `import` statement.
    pub bare: bool,
    /// A `from m import *` statement (its `symbol` is empty).
    pub wildcard: bool,
    /// The module text (`a.b`, `.models`, `..`).
    pub module: String,
    /// The imported symbol (empty for bare imports).
    pub symbol: String,
    /// The 0-based line of the symbol (of the module for bare imports).
    pub row: usize,
}

/// The mathematical content of a [`PyImport`].
pub struct PyImportView {
    pub bare: bool,
    pub wildcard: bool,
    pub module: Seq<char>,
    pub symbol: Seq<char>,
    pub row: usize,
}

impl View for PyImport {
    type V = PyImportView;

    open spec fn view(&self) -> PyImportView {
        PyImportView {
            bare: self.bare,
            wildcard: self.wildcard,
            module: self.module@,
            symbol: self.symbol@,
            row: self.row,
        }
    }
}

/// The views of a list of imports.
pub open spec fn imports_view(v: Seq<PyImport>) -> Seq<PyImportView> {
    v.map_values(|x: PyImport| x@)
}

/// The imported name that the child `n` of an import statement stands for:
/// a dotted name itself, or the name before `as` in an `a as b`.
pub open spec fn imported_name(t: Seq<SyntaxNodeView>, n: int) -> Option<int> {
    if t[n].kind == "dotted_name"@ {
        Some(n)
    } else if t[n].kind == "aliased_import"@ {
        child_by_field(t, n, "name"@)
    } else {
        None
    }
}

/// The imports that the children `ks` of the statement at `i` hold.
pub open spec fn statement_imports(t: Seq<SyntaxNodeView>, i: int, ks: Seq<int>) -> Seq<
    PyImportView,
>
    decreases ks.len(),
{
    if ks.len() == 0 {
        Seq::<PyImportView>::empty()
    } else {
        let prev = statement_imports(t, i, ks.drop_last());
        let n = ks.last();
        if t[i].kind == "import_statement"@ {
            if t[n].field == Some("name"@) && t[n].kind == "dotted_name"@ {
                prev.push(
                    PyImportView {
                        bare: true,
                        wildcard: false,
                        module: t[n].text,
                        symbol: Seq::<char>::empty(),
                        row: t[n].row,
                    },
                )
            } else {
                prev
            }
        } else if t[n].kind == "wildcard_import"@ {
            match child_by_field(t, i, "module_name"@) {
                Some(m) => prev.push(
                    PyImportView {
                        bare: false,
                        wildcard: true,
                        module: t[m].text,
                        symbol: Seq::<char>::empty(),
                        row: t[n].row,
                    },
                ),
                None => prev,
            }
        } else if t[n].field == Some("name"@) {
            match (child_by_field(t, i, "module_name"@), imported_name(t, n)) {
                (Some(m), Some(d)) => prev.push(
                    PyImportView {
                        bare: false,
                        wildcard: false,
                        module: t[m].text,
                        symbol: t[d].text,
                        row: t[d].row,
                    },
                ),
                _ => prev,
            }
        } else {
            prev
        }
    }
}

/// The imports of the node at `i`: those of an `import` or `from ... import`
/// statement, nothing for other nodes.
pub open spec fn node_imports(t: Seq<SyntaxNodeView>, i: int) -> Seq<PyImportView> {
    if t[i].kind == "import_statement"@ || t[i].kind == "import_from_statement"@ {
        statement_imports(t, i, kids(t, i))
    } else {
        Seq::<PyImportView>::empty()
    }
}

/// The imports of the first `n` nodes of the listing, in source order.
pub open spec fn imports_upto(t: Seq<SyntaxNodeView>, n: int) -> Seq<PyImportView>
    decreases n,
{
    if n <= 0 {
        Seq::<PyImportView>::empty()
    } else {
        imports_upto(t, n - 1) + node_imports(t, n - 1)
    }
}

/// All imports of a Python syntax tree, in source order.
pub open spec fn py_imports(t: Seq<SyntaxNodeView>) -> Seq<PyImportView> {
    imports_upto(t, t.len() as int)
}

fn imported_name_exec(t: &Vec<SyntaxNode>, n: usize) -> (r: Option<usize>)
    requires
        n < t@.len(),
    ensures
        match r {
            Some(d) => imported_name(nodes_view(t@), n as int) == Some(d as int) && d < t@.len(),
            None => imported_name(nodes_view(t@), n as int) is None,
        },
{
    if kind_is(t, n, "dotted_name") {
        Some(n)
    } else if kind_is(t, n, "aliased_import") {
        child_by_field_exec(t, n, "name")
    } else {
        None
    }
}

fn node_imports_exec(t: &Vec<SyntaxNode>, i: usize, out: &mut Vec<PyImport>)
    requires
        i < t@.len(),
    ensures
        imports_view(final(out)@) == imports_view(old(out)@) + node_imports(nodes_view(t@), i as int),
{
    let ghost tv = nodes_view(t@);
    let ghost o0 = imports_view(out@);
    let is_import = kind_is(t, i, "import_statement");
    if !is_import && !kind_is(t, i, "import_from_statement") {
        assert(imports_view(out@) =~= o0 + node_imports(tv, i as int));
        return;
    }
    let module = child_by_field_exec(t, i, "module_name");
    let ks = kids_exec(t, i);
    let ghost kv = ks@.map_values(|k: usize| k as int);
    let mut x: usize = 0;
    assert(imports_view(out@) =~= o0 + statement_imports(tv, i as int, kv.take(0)));
    while x < ks.len()
        invariant
            tv == nodes_view(t@),
            i < t@.len(),
            is_import == (tv[i as int].kind == "import_statement"@),
            match module {
                Some(m) => child_by_field(tv, i as int, "module_name"@) == Some(m as int) && m
                    < t@.len(),
                None => child_by_field(tv, i as int, "module_name"@) is None,
            },
            kv == ks@.map_values(|k: usize| k as int),
            kv == kids(tv, i as int),
            x <= ks@.len(),
            forall|k: int| 0 <= k < ks@.len() ==> i < #[trigger] ks@[k] < t@.len(),
            imports_view(out@) == o0 + statement_imports(tv, i as int, kv.take(x as int)),
        decreases ks@.len() - x,
    {
        let n = ks[x];
        assert(kv.take((x + 1) as int).drop_last() == kv.take(x as int));
        assert(kv.take((x + 1) as int).last() == n as int);
        let ghost before = imports_view(out@);
        if is_import {
            if field_is(t, n, "name") && kind_is(t, n, "dotted_name") {
                let rec = PyImport {
                    bare: true,
                    wildcard: false,
                    module: t[n].text.clone(),
                    symbol: String::new(),
                    row: t[n].row,
                };
                out.push(rec);
                assert(imports_view(out@) =~= before.push(rec@));
            }
        } else if kind_is(t, n, "wildcard_import") {
            match module {
                Some(m) => {
                    let rec = PyImport {
                        bare: false,
                        wildcard: true,
                        module: t[m].text.clone(),
                        symbol: String::new(),
                        row: t[n].row,
                    };
                    out.push(rec);
                    assert(imports_view(out@) =~= before.push(rec@));
                },
                None => {},
            }
        } else if field_is(t, n, "name") {
            match module {
                Some(m) => match imported_name_exec(t, n) {
                    Some(d) => {
                        let rec = PyImport {
                            bare: false,
                            wildcard: false,
                            module: t[m].text.clone(),
                            symbol: t[d].text.clone(),
                            row: t[d].row,
                        };
                        out.push(rec);
                        assert(imports_view(out@) =~= before.push(rec@));
                    },
                    None => {},
                },
                None => {},
            }
        }
        x = x + 1;
        assert(imports_view(out@) =~= o0 + statement_imports(tv, i as int, kv.take(x as int)));
    }
    assert(kv.take(ks@.len() as int) == kv);
}

/// All imports of a Python syntax tree, in source order.
pub fn imports_from_syntax(t: &Vec<SyntaxNode>) -> (r: Vec<PyImport>)
    ensures
        imports_view(r@) == py_imports(nodes_view(t@)),
{
    let ghost tv = nodes_view(t@);
    let mut out: Vec<PyImport> = Vec::new();
    let mut i: usize = 0;
    assert(imports_view(out@) =~= imports_upto(tv, 0));
    while i < t.len()
        invariant
            tv == nodes_view(t@),
            i <= t@.len(),
            imports_view(out@) == imports_upto(tv, i as int),
        decreases t@.len() - i,
    {
        node_imports_exec(t, i, &mut out);
        i = i + 1;
    }
    out
}

// ---------------------------------------------------------------------------
// Absolute import specifiers
// ---------------------------------------------------------------------------

/// The name that node `i` reads off the module `module`: for an `attribute`
/// node `module.name` whose object is the identifier `module`, the
/// identifier `name`.
pub open spec fn module_attribute(t: Seq<SyntaxNodeView>, i: int, module: Seq<char>) -> Option<
    Seq<char>,
> {
    if t[i].kind == "attribute"@ {
        match (child_by_field(t, i, "object"@), child_by_field(t, i, "attribute"@)) {
            (Some(o), Some(a)) => if t[o].kind == "identifier"@ && t[o].text == module && t[a].kind
                == "identifier"@ && t[a].text.len() > 0 {
                Some(t[a].text)
            } else {
                None
            },
            _ => None,
        }
    } else {
        None
    }
}

/// The names read off `module` in the first `n` nodes, in source order.
pub open spec fn attributes_upto(t: Seq<SyntaxNodeView>, module: Seq<char>, n: int) -> Seq<
    Seq<char>,
>
    decreases n,
{
    if n <= 0 {
        Seq::<Seq<char>>::empty()
    } else {
        let prev = attributes_upto(t, module, n - 1);
        match module_attribute(t, n - 1, module) {
            Some(a) => prev.push(a),
            None => prev,
        }
    }
}

/// The names accessed on a bare-imported module (`import httpx` then
/// `httpx.Client()` gives `Client`), sorted and without duplicates; empty
/// when the module is never accessed that way (a dotted module such as
/// `os.path` never is: its object is not one identifier).
pub open spec fn bare_import_attributes(t: Seq<SyntaxNodeView>, module: Seq<char>) -> Seq<
    Seq<char>,
> {
    sorted_elems(attributes_upto(t, module, t.len() as int).to_set())
}

/// The specifier under which an absolute import of `module` is recorded:
/// none for relative modules and for an empty specifier.
pub open spec fn absolute_key(module: Seq<char>) -> Option<Seq<char>> {
    let spec = py_absolute_specifier(module);
    if starts_with(spec, "./"@) || starts_with(spec, "../"@) || spec.len() == 0 || is_bare_dots(
        module,
    ) {
        None
    } else {
        Some(spec)
    }
}

/// The table after one more import: a bare import adds its module with the
/// names accessed on it unless the module is already there; a `from m
/// import s` appends `s` to the symbols of `m`; wildcards are not recorded.
pub open spec fn specifiers_step(
    t: Seq<SyntaxNodeView>,
    m: Seq<(Seq<char>, Seq<Seq<char>>)>,
    imp: PyImportView,
) -> Seq<(Seq<char>, Seq<Seq<char>>)> {
    if imp.wildcard {
        m
    } else {
        match absolute_key(imp.module) {
            None => m,
            Some(k) => if imp.bare {
                table_insert_absent(m, k, bare_import_attributes(t, imp.module))
            } else {
                table_extend(m, k, seq![imp.symbol])
            },
        }
    }
}

/// The table of the first `n` imports of `imps`.
pub open spec fn specifiers_upto(
    t: Seq<SyntaxNodeView>,
    imps: Seq<PyImportView>,
    n: int,
) -> Seq<(Seq<char>, Seq<Seq<char>>)>
    decreases n,
{
    if n <= 0 {
        Seq::<(Seq<char>, Seq<Seq<char>>)>::empty()
    } else {
        specifiers_step(t, specifiers_upto(t, imps, n - 1), imps[n - 1])
    }
}

/// Every absolute module that a Python syntax tree imports, with the symbols
/// imported from it, in the order in which the modules first appear.
pub open spec fn py_import_specifiers(t: Seq<SyntaxNodeView>) -> Seq<(Seq<char>, Seq<Seq<char>>)> {
    let imps = py_imports(t);
    specifiers_upto(t, imps, imps.len() as int)
}

fn module_attribute_exec(t: &Vec<SyntaxNode>, i: usize, module: &String) -> (r: Option<String>)
    requires
        i < t@.len(),
    ensures
        opt_string_view(r) == module_attribute(nodes_view(t@), i as int, module@),
{
    if !kind_is(t, i, "attribute") {
        return None;
    }
    match (child_by_field_exec(t, i, "object"), child_by_field_exec(t, i, "attribute")) {
        (Some(o), Some(a)) => {
            if kind_is(t, o, "identifier") && t[o].text == *module && kind_is(t, a, "identifier")
                && !t[a].text.as_str().is_empty() {
                Some(t[a].text.clone())
            } else {
                None
            }
        },
        _ => None,
    }
}

/// The names accessed on the bare-imported `module`, sorted, without
/// duplicates.
fn bare_import_attributes_exec(t: &Vec<SyntaxNode>, module: &String) -> (r: Vec<String>)
    ensures
        strings_view(r@) == bare_import_attributes(nodes_view(t@), module@),
{
    let ghost tv = nodes_view(t@);
    let mut attrs: Vec<String> = Vec::new();
    let mut i: usize = 0;
    while i < t.len()
        invariant
            tv == nodes_view(t@),
            i <= t@.len(),
            strings_view(attrs@) == attributes_upto(tv, module@, i as int),
        decreases t@.len() - i,
    {
        let ghost before = strings_view(attrs@);
        match module_attribute_exec(t, i, module) {
            Some(a) => {
                attrs.push(a);
                assert(strings_view(attrs@) =~= before.push(a@));
            },
            None => {},
        }
        i = i + 1;
    }
    sort_dedup(&attrs)
}

/// The table of all absolute imports of a Python syntax tree: module
/// specifier to imported symbols, each specifier once.
pub fn import_specifiers_from_syntax(t: &Vec<SyntaxNode>) -> (r: Vec<(String, Vec<String>)>)
    ensures
        table_view(r@) == py_import_specifiers(nodes_view(t@)),
        keys_unique(table_view(r@)),
{
    let ghost tv = nodes_view(t@);
    let imps = imports_from_syntax(t);
    let ghost iv = imports_view(imps@);
    let mut out: Vec<(String, Vec<String>)> = Vec::new();
    let mut i: usize = 0;
    while i < imps.len()
        invariant
            tv == nodes_view(t@),
            iv == imports_view(imps@),
            iv == py_imports(tv),
            i <= imps@.len(),
            table_view(out@) == specifiers_upto(tv, iv, i as int),
            keys_unique(table_view(out@)),
        decreases imps@.len() - i,
    {
        let imp = &imps[i];
        assert(iv[i as int] == imp@);
        proof {
            lemma_table_extend_unique(
                table_view(out@),
                py_absolute_specifier(imp.module@),
                bare_import_attributes(tv, imp.module@),
            );
            lemma_table_extend_unique(
                table_view(out@),
                py_absolute_specifier(imp.module@),
                seq![imp.symbol@],
            );
        }
        if !imp.wildcard {
            let spec = python_module_to_absolute_specifier(imp.module.as_str());
            let sv = chars_of(spec.as_str());
            if !(starts_with_lit(sv.as_slice(), "./") || starts_with_lit(sv.as_slice(), "../")
                || sv.len() == 0 || bare_dots_exec(imp.module.as_str())) {
                if imp.bare {
                    let attrs = bare_import_attributes_exec(t, &imp.module);
                    table_insert_absent_exec(&mut out, spec, attrs);
                } else {
                    let mut one: Vec<String> = Vec::new();
                    one.push(imp.symbol.clone());
                    assert(strings_view(one@) =~= seq![imp.symbol@]);
                    table_extend_exec(&mut out, spec, one);
                }
            }
        }
        i = i + 1;
    }
    out
}

// ---------------------------------------------------------------------------
// Relative imports
// ---------------------------------------------------------------------------

/// The 1-based line of a 0-based row (saturating at the largest `usize`).
pub open spec fn line_of(row: usize) -> usize {
    if row < usize::MAX {
        (row + 1) as usize
    } else {
        row
    }
}

/// The relative import that `imp` stands for: its specifier, symbol and
/// line.  `from . import views` reads `./views`; `from .m import s` reads
/// `./m`; absolute, bare and wildcard imports give none.
pub open spec fn relative_entry(imp: PyImportView) -> Option<(Seq<char>, Seq<char>, usize)> {
    let base = py_from_base(imp.module);
    if imp.bare || imp.wildcard || !(starts_with(base, "./"@) || starts_with(base, "../"@)) {
        None
    } else if imp.module == "."@ {
        Some(("./"@ + imp.symbol, imp.symbol, line_of(imp.row)))
    } else {
        Some((base, imp.symbol, line_of(imp.row)))
    }
}

/// The relative imports among the first `n` of `imps`, in order.
pub open spec fn relative_entries(imps: Seq<PyImportView>, n: int) -> Seq<
    (Seq<char>, Seq<char>, usize),
>
    decreases n,
{
    if n <= 0 {
        Seq::<(Seq<char>, Seq<char>, usize)>::empty()
    } else {
        let prev = relative_entries(imps, n - 1);
        match relative_entry(imps[n - 1]) {
            Some(e) => prev.push(e),
            None => prev,
        }
    }
}

/// The specifiers of the first `n` entries, each with its symbols in order.
pub open spec fn entry_groups(raw: Seq<(Seq<char>, Seq<char>, usize)>, n: int) -> Seq<
    (Seq<char>, Seq<Seq<char>>),
>
    decreases n,
{
    if n <= 0 {
        Seq::<(Seq<char>, Seq<Seq<char>>)>::empty()
    } else {
        table_extend(entry_groups(raw, n - 1), raw[n - 1].0, seq![raw[n - 1].1])
    }
}

/// The mappings of the entries among the first `n` of `raw` whose
/// specifier is `spec`, each listing all the symbols `syms` of `spec`.
pub open spec fn group_mappings(
    raw: Seq<(Seq<char>, Seq<char>, usize)>,
    spec: Seq<char>,
    syms: Seq<Seq<char>>,
    file: Seq<char>,
    n: int,
) -> Seq<ImportMappingView>
    decreases n,
{
    if n <= 0 {
        Seq::<ImportMappingView>::empty()
    } else {
        let prev = group_mappings(raw, spec, syms, file, n - 1);
        if raw[n - 1].0 == spec {
            prev.push(
                ImportMappingView {
                    symbol_name: raw[n - 1].1,
                    module_specifier: spec,
                    file: file,
                    line: raw[n - 1].2,
                    symbols: syms,
                },
            )
        } else {
            prev
        }
    }
}

/// The mappings of the first `n` groups of `groups`.
pub open spec fn grouped_mappings(
    raw: Seq<(Seq<char>, Seq<char>, usize)>,
    groups: Seq<(Seq<char>, Seq<Seq<char>>)>,
    file: Seq<char>,
    n: int,
) -> Seq<ImportMappingView>
    decreases n,
{
    if n <= 0 {
        Seq::<ImportMappingView>::empty()
    } else {
        grouped_mappings(raw, groups, file, n - 1) + group_mappings(
            raw,
            groups[n - 1].0,
            groups[n - 1].1,
            file,
            raw.len() as int,
        )
    }
}

/// The relative imports of a Python syntax tree, one mapping per imported
/// symbol: grouped by specifier (in the order in which specifiers first
/// appear), each mapping carrying its own line and all the symbols that
/// its file imports from the same specifier.
pub open spec fn py_relative_mappings(t: Seq<SyntaxNodeView>, file: Seq<char>) -> Seq<
    ImportMappingView,
> {
    let imps = py_imports(t);
    let raw = relative_entries(imps, imps.len() as int);
    let groups = entry_groups(raw, raw.len() as int);
    grouped_mappings(raw, groups, file, groups.len() as int)
}

/// The view of a list of relative-import entries.
pub open spec fn entries_view(v: Seq<(String, String, usize)>) -> Seq<
    (Seq<char>, Seq<char>, usize),
> {
    v.map_values(|e: (String, String, usize)| (e.0@, e.1@, e.2))
}

fn relative_entry_exec(imp: &PyImport) -> (r: Option<(String, String, usize)>)
    ensures
        match r {
            Some(e) => relative_entry(imp@) == Some((e.0@, e.1@, e.2)),
            None => relative_entry(imp@) is None,
        },
{
    if imp.bare || imp.wildcard {
        return None;
    }
    let base = from_import_base(imp.module.as_str());
    let bv = chars_of(base.as_str());
    if !(starts_with_lit(bv.as_slice(), "./") || starts_with_lit(bv.as_slice(), "../")) {
        return None;
    }
    let line = imp.row.saturating_add(1);
    let mv = chars_of(imp.module.as_str());
    if eq_lit(mv.as_slice(), ".") {
        let sv = chars_of(imp.symbol.as_str());
        let pv = chars_of("./");
        let joined = crate::text::concat(pv.as_slice(), sv.as_slice());
        Some((string_of(joined.as_slice()), imp.symbol.clone(), line))
    } else {
        Some((base, imp.symbol.clone(), line))
    }
}

/// One import mapping per symbol of the relative imports of a Python
/// syntax tree (see [`py_relative_mappings`]).
pub fn relative_mappings_from_syntax(t: &Vec<SyntaxNode>, file: &str) -> (r: Vec<ImportMapping>)
    ensures
        mappings_view(r@) == py_relative_mappings(nodes_view(t@), file@),
{
    let ghost tv = nodes_view(t@);
    let imps = imports_from_syntax(t);
    let ghost iv = imports_view(imps@);
    let mut raw: Vec<(String, String, usize)> = Vec::new();
    let mut i: usize = 0;
    while i < imps.len()
        invariant
            iv == imports_view(imps@),
            i <= imps@.len(),
            entries_view(raw@) == relative_entries(iv, i as int),
        decreases imps@.len() - i,
    {
        assert(iv[i as int] == imps@[i as int]@);
        let ghost before = entries_view(raw@);
        match relative_entry_exec(&imps[i]) {
            Some(e) => {
                let ghost ev = (e.0@, e.1@, e.2);
                raw.push(e);
                assert(entries_view(raw@) =~= before.push(ev));
            },
            None => {},
        }
        i = i + 1;
    }
    let ghost rv = entries_view(raw@);
    let mut groups: Vec<(String, Vec<String>)> = Vec::new();
    let mut j: usize = 0;
    while j < raw.len()
        invariant
            rv == entries_view(raw@),
            j <= raw@.len(),
            table_view(groups@) == entry_groups(rv, j as int),
        decreases raw@.len() - j,
    {
        let mut one: Vec<String> = Vec::new();
        one.push(raw[j].1.clone());
        assert(strings_view(one@) =~= seq![rv[j as int].1]);
        table_extend_exec(&mut groups, raw[j].0.clone(), one);
        j = j + 1;
    }
    let ghost gv = table_view(groups@);
    let mut out: Vec<ImportMapping> = Vec::new();
    let mut g: usize = 0;
    while g < groups.len()
        invariant
            rv == entries_view(raw@),
            gv == table_view(groups@),
            g <= groups@.len(),
            mappings_view(out@) == grouped_mappings(rv, gv, file@, g as int),
        decreases groups@.len() - g,
    {
        let ghost base = mappings_view(out@);
        let spec = &groups[g].0;
        let syms = &groups[g].1;
        assert(gv[g as int].0 == spec@ && gv[g as int].1 == strings_view(syms@));
        let mut k: usize = 0;
        while k < raw.len()
            invariant
                rv == entries_view(raw@),
                k <= raw@.len(),
                mappings_view(out@) == base + group_mappings(
                    rv,
                    spec@,
                    strings_view(syms@),
                    file@,
                    k as int,
                ),
            decreases raw@.len() - k,
        {
            if raw[k].0 == *spec {
                let m = ImportMapping {
                    symbol_name: raw[k].1.clone(),
                    module_specifier: spec.clone(),
                    file: String::from_str(file),
                    line: raw[k].2,
                    symbols: clone_strings(syms),
                };
                let ghost before = mappings_view(out@);
                out.push(m);
                assert(mappings_view(out@) =~= before.push(m@));
            }
            k = k + 1;
        }
        g = g + 1;
    }
    out
}

// ---------------------------------------------------------------------------
// Re-exports of a package index
// ---------------------------------------------------------------------------

/// The position of the re-export from `spec` in `m`.
pub open spec fn reexport_index(m: Seq<BarrelReExportView>, spec: Seq<char>) -> Option<int>
    decreases m.len(),
{
    if m.len() == 0 {
        None
    } else if m.last().from_specifier == spec {
        Some(m.len() - 1)
    } else {
        reexport_index(m.drop_last(), spec)
    }
}


/// The re-exports after one more `from spec import ...`: the symbol `sym`
/// (if any) joins the entry of `spec` unless it is there already, and a
/// wildcard marks the entry; a new specifier opens a new entry.
pub open spec fn add_reexport(
    m: Seq<BarrelReExportView>,
    spec: Seq<char>,
    sym: Option<Seq<char>>,
    wildcard: bool,
) -> Seq<BarrelReExportView> {
    match reexport_index(m, spec) {
        Some(i) => m.update(
            i,
            BarrelReExportView {
                symbols: match sym {
                    Some(s) => push_new(m[i].symbols, s),
                    None => m[i].symbols,
                },
                from_specifier: spec,
                wildcard: m[i].wildcard || wildcard,
                namespace_wildcard: false,
            },
        ),
        None => m.push(
            BarrelReExportView {
                symbols: match sym {
                    Some(s) => seq![s],
                    None => Seq::<Seq<char>>::empty(),
                },
                from_specifier: spec,
                wildcard: wildcard,
                namespace_wildcard: false,
            },
        ),
    }
}

/// The re-exports of the first `n` imports: every `from` import whose module
/// is relative (`.m`, `..m`, `.`) re-exports its symbol, or everything for
/// `import *`.
pub open spec fn py_reexports_upto(imps: Seq<PyImportView>, n: int) -> Seq<BarrelReExportView>
    decreases n,
{
    if n <= 0 {
        Seq::<BarrelReExportView>::empty()
    } else {
        let prev = py_reexports_upto(imps, n - 1);
        let imp = imps[n - 1];
        let spec = py_from_base(imp.module);
        if imp.bare || !(starts_with(spec, "./"@) || starts_with(spec, "../"@)) {
            prev
        } else if imp.wildcard {
            add_reexport(prev, spec, None, true)
        } else {
            add_reexport(prev, spec, Some(imp.symbol), false)
        }
    }
}

/// The re-exports of a Python package index, one entry per relative
/// specifier in the order of first appearance.
pub open spec fn py_reexports(t: Seq<SyntaxNodeView>) -> Seq<BarrelReExportView> {
    let imps = py_imports(t);
    py_reexports_upto(imps, imps.len() as int)
}

proof fn lemma_reexport_index(m: Seq<BarrelReExportView>, spec: Seq<char>)
    ensures
        reexport_index(m, spec) matches Some(i) ==> 0 <= i < m.len() && m[i].from_specifier
            == spec,
    decreases m.len(),
{
    if m.len() > 0 {
        lemma_reexport_index(m.drop_last(), spec);
    }
}

proof fn lemma_reexport_scan(m: Seq<BarrelReExportView>, spec: Seq<char>, i: int)
    requires
        0 <= i <= m.len(),
        forall|j: int| i <= j < m.len() ==> m[j].from_specifier != spec,
    ensures
        i > 0 && m[i - 1].from_specifier == spec ==> reexport_index(m, spec) == Some(i - 1),
        i == 0 ==> reexport_index(m, spec) is None,
    decreases m.len() - i,
{
    if i < m.len() {
        lemma_reexport_scan(m.drop_last(), spec, i);
    }
}

fn reexport_find(m: &Vec<BarrelReExport>, spec: &String) -> (r: Option<usize>)
    ensures
        match r {
            Some(x) => reexport_index(reexports_view(m@), spec@) == Some(x as int),
            None => reexport_index(reexports_view(m@), spec@) is None,
        },
{
    let mut i = m.len();
    while i > 0
        invariant
            i <= m@.len(),
            forall|j: int| i <= j < m@.len() ==> reexports_view(m@)[j].from_specifier != spec@,
        decreases i,
    {
        if m[i - 1].from_specifier == *spec {
            proof {
                lemma_reexport_scan(reexports_view(m@), spec@, i as int);
            }
            return Some(i - 1);
        }
        i = i - 1;
    }
    proof {
        lemma_reexport_scan(reexports_view(m@), spec@, 0);
    }
    None
}


fn add_reexport_exec(m: &mut Vec<BarrelReExport>, spec: String, sym: Option<String>, wildcard: bool)
    ensures
        reexports_view(final(m)@) == add_reexport(
            reexports_view(old(m)@),
            spec@,
            opt_string_view(sym),
            wildcard,
        ),
{
    let found = reexport_find(m, &spec);
    proof {
        lemma_reexport_index(reexports_view(m@), spec@);
    }
    match found {
        Some(i) => {
            let old_entry = m.remove(i);
            let mut symbols = old_entry.symbols;
            match sym {
                Some(s) => {
                    if !contains_string(&symbols, &s) {
                        let ghost before = strings_view(symbols@);
                        symbols.push(s);
                        assert(strings_view(symbols@) =~= before.push(s@));
                    }
                },
                None => {},
            }
            let entry = BarrelReExport {
                symbols: symbols,
                from_specifier: spec,
                wildcard: old_entry.wildcard || wildcard,
                namespace_wildcard: false,
            };
            let ghost ev = entry@;
            m.insert(i, entry);
            assert(reexports_view(m@) =~= reexports_view(old(m)@).update(i as int, ev));
        },
        None => {
            let mut symbols: Vec<String> = Vec::new();
            match sym {
                Some(s) => {
                    symbols.push(s);
                },
                None => {},
            }
            let entry = BarrelReExport {
                symbols: symbols,
                from_specifier: spec,
                wildcard: wildcard,
                namespace_wildcard: false,
            };
            let ghost ev = entry@;
            m.push(entry);
            assert(strings_view(entry.symbols@) =~= match opt_string_view(sym) {
                Some(s) => seq![s],
                None => Seq::<Seq<char>>::empty(),
            }) by {
                assert(ev.symbols == strings_view(entry.symbols@));
            }
            assert(reexports_view(m@) =~= reexports_view(old(m)@).push(ev));
        },
    }
}

/// The re-exports of a Python package index read off its syntax tree
/// (see [`py_reexports`]).
pub fn reexports_from_syntax(t: &Vec<SyntaxNode>) -> (r: Vec<BarrelReExport>)
    ensures
        reexports_view(r@) == py_reexports(nodes_view(t@)),
{
    let imps = imports_from_syntax(t);
    let ghost iv = imports_view(imps@);
    let mut out: Vec<BarrelReExport> = Vec::new();
    let mut i: usize = 0;
    while i < imps.len()
        invariant
            iv == imports_view(imps@),
            i <= imps@.len(),
            reexports_view(out@) == py_reexports_upto(iv, i as int),
        decreases imps@.len() - i,
    {
        let imp = &imps[i];
        assert(iv[i as int] == imp@);
        if !imp.bare {
            let spec = from_import_base(imp.module.as_str());
            let sv = chars_of(spec.as_str());
            if starts_with_lit(sv.as_slice(), "./") || starts_with_lit(sv.as_slice(), "../") {
                if imp.wildcard {
                    add_reexport_exec(&mut out, spec, None, true);
                } else {
                    add_reexport_exec(&mut out, spec, Some(imp.symbol.clone()), false);
                }
            }
        }
        i = i + 1;
    }
    out
}

// ---------------------------------------------------------------------------
// Django project root
// ---------------------------------------------------------------------------

/// The view of a directory listing of (path, depth, is a directory, holds
/// `manage.py`) entries.
pub open spec fn manage_entries_view(v: Seq<(String, usize, bool, bool)>) -> Seq<
    (Seq<char>, usize, bool, bool),
> {
    v.map_values(|e: (String, usize, bool, bool)| (e.0@, e.1, e.2, e.3))
}

/// The first directory at depth `d` among the first `n` entries that
/// holds `manage.py`.
pub open spec fn first_manage_dir(es: Seq<(Seq<char>, usize, bool, bool)>, d: usize, n: int) -> Option<
    Seq<char>,
>
    decreases n,
{
    if n <= 0 {
        None
    } else {
        match first_manage_dir(es, d, n - 1) {
            Some(p) => Some(p),
            None => if es[n - 1].1 == d && es[n - 1].2 && es[n - 1].3 {
                Some(es[n - 1].0)
            } else {
                None
            },
        }
    }
}

/// The Django project root below a scan root: none when the scan root
/// itself holds `manage.py`; else the first directory one level down that
/// holds it; else the first two levels down.
pub open spec fn manage_py_root(root_has: bool, es: Seq<(Seq<char>, usize, bool, bool)>) -> Option<
    Seq<char>,
> {
    if root_has {
        None
    } else {
        match first_manage_dir(es, 1, es.len() as int) {
            Some(p) => Some(p),
            None => first_manage_dir(es, 2, es.len() as int),
        }
    }
}

fn first_manage_dir_exec(entries: &Vec<(String, usize, bool, bool)>, d: usize) -> (r: Option<String>)
    ensures
        opt_string_view(r) == first_manage_dir(
            manage_entries_view(entries@),
            d,
            entries@.len() as int,
        ),
{
    let ghost ev = manage_entries_view(entries@);
    let mut i: usize = 0;
    while i < entries.len()
        invariant
            ev == manage_entries_view(entries@),
            i <= entries@.len(),
            first_manage_dir(ev, d, i as int) is None,
        decreases entries@.len() - i,
    {
        let e = &entries[i];
        assert(ev[i as int] == (e.0@, e.1, e.2, e.3));
        if e.1 == d && e.2 && e.3 {
            let r = e.0.clone();
            proof {
                lemma_first_manage_dir_stays(ev, d, i + 1, entries@.len() as int);
            }
            return Some(r);
        }
        i = i + 1;
    }
    None
}

proof fn lemma_first_manage_dir_stays(
    es: Seq<(Seq<char>, usize, bool, bool)>,
    d: usize,
    n: int,
    m: int,
)
    requires
        0 < n <= m,
        first_manage_dir(es, d, n) is Some,
    ensures
        first_manage_dir(es, d, m) == first_manage_dir(es, d, n),
    decreases m - n,
{
    if m > n {
        lemma_first_manage_dir_stays(es, d, n, m - 1);
    }
}

/// Find the Django project root below a scan root, given whether the
/// scan root holds `manage.py` and the entries one and two levels below it
/// in the order met (each entry of the first level followed by its own
/// entries): see [`manage_py_root`].
pub fn find_manage_py_root(root_has_manage_py: bool, entries: &Vec<(String, usize, bool, bool)>) -> (r:
    Option<String>)
    ensures
        opt_string_view(r) == manage_py_root(root_has_manage_py, manage_entries_view(entries@)),
{
    if root_has_manage_py {
        return None;
    }
    match first_manage_dir_exec(entries, 1) {
        Some(p) => Some(p),
        None => first_manage_dir_exec(entries, 2),
    }
}

// ---------------------------------------------------------------------------
// Names that assertions use
// ---------------------------------------------------------------------------

/// The byte range `a..b` overlaps one of `ranges`.
pub open spec fn overlaps_any(ranges: Seq<(usize, usize)>, a: usize, b: usize) -> bool {
    exists|k: int| 0 <= k < ranges.len() && a < ranges[k].1 && b > ranges[k].0
}

/// The byte range `a..b` lies within one of `ranges`.
pub open spec fn within_any(ranges: Seq<(usize, usize)>, a: usize, b: usize) -> bool {
    exists|k: int| 0 <= k < ranges.len() && a >= ranges[k].0 && b <= ranges[k].1
}

/// The identifiers met by a walk of the tree from node `i` on that enters
/// only the nodes overlapping an assertion range, keeping those that lie
/// within one (with non-empty text).
pub open spec fn walk_identifiers(t: Seq<SyntaxNodeView>, ranges: Seq<(usize, usize)>, i: int) -> Seq<
    Seq<char>,
>
    decreases t.len() - i,
{
    if i < 0 || i >= t.len() {
        Seq::<Seq<char>>::empty()
    } else if !overlaps_any(ranges, t[i].start_byte, t[i].end_byte) {
        proof {
            lemma_subtree_end(t, i);
        }
        walk_identifiers(t, ranges, subtree_end(t, i))
    } else {
        let rest = walk_identifiers(t, ranges, i + 1);
        if t[i].kind == "identifier"@ && within_any(ranges, t[i].start_byte, t[i].end_byte)
            && t[i].text.len() > 0 {
            seq![t[i].text] + rest
        } else {
            rest
        }
    }
}

/// The names used inside the assertions whose byte ranges are `ranges`.
pub open spec fn assertion_identifiers(t: Seq<SyntaxNodeView>, ranges: Seq<(usize, usize)>) -> Set<
    Seq<char>,
> {
    walk_identifiers(t, ranges, 0).to_set()
}

/// The table of assignments `var = Target(...)` / `var = source.attr`:
/// variable to the names it stands for, pairs with an empty side or the
/// same name on both sides left out.
pub open spec fn assignment_table(pairs: Seq<(Seq<char>, Seq<char>)>, n: int) -> Seq<
    (Seq<char>, Seq<Seq<char>>),
>
    decreases n,
{
    if n <= 0 {
        Seq::<(Seq<char>, Seq<Seq<char>>)>::empty()
    } else {
        let prev = assignment_table(pairs, n - 1);
        let (v, target) = pairs[n - 1];
        if v.len() > 0 && target.len() > 0 && v != target {
            table_extend(prev, v, seq![target])
        } else {
            prev
        }
    }
}

/// The names that the variables in `s` stand for in table `m`.
pub open spec fn assigned_targets(m: Seq<(Seq<char>, Seq<Seq<char>>)>, s: Set<Seq<char>>) -> Set<
    Seq<char>,
> {
    Set::new(|x: Seq<char>| exists|k: int| 0 <= k < m.len() && s.contains(m[k].0) && m[k].1.contains(x))
}

/// One hop along the assignments: `s` with the names its variables stand for.
pub open spec fn expand_once(m: Seq<(Seq<char>, Seq<Seq<char>>)>, s: Set<Seq<char>>) -> Set<
    Seq<char>,
> {
    s.union(assigned_targets(m, s))
}

/// The names that assertions use, directly or through a chain of up to two
/// assignments; none when there are no assertions.
pub open spec fn assertion_referenced_names(
    t: Seq<SyntaxNodeView>,
    ranges: Seq<(usize, usize)>,
    pairs: Seq<(Seq<char>, Seq<char>)>,
) -> Set<Seq<char>> {
    if ranges.len() == 0 {
        Set::<Seq<char>>::empty()
    } else {
        let m = assignment_table(pairs, pairs.len() as int);
        expand_once(m, expand_once(m, assertion_identifiers(t, ranges)))
    }
}

fn overlaps_any_exec(ranges: &Vec<(usize, usize)>, a: usize, b: usize, inside: bool) -> (r: bool)
    ensures
        inside ==> r == within_any(ranges@, a, b),
        !inside ==> r == overlaps_any(ranges@, a, b),
{
    let mut k: usize = 0;
    while k < ranges.len()
        invariant
            k <= ranges@.len(),
            inside ==> forall|j: int| 0 <= j < k ==> !(a >= ranges@[j].0 && b <= ranges@[j].1),
            !inside ==> forall|j: int| 0 <= j < k ==> !(a < ranges@[j].1 && b > ranges@[j].0),
        decreases ranges@.len() - k,
    {
        let (s, e) = ranges[k];
        if (inside && a >= s && b <= e) || (!inside && a < e && b > s) {
            return true;
        }
        k = k + 1;
    }
    false
}

fn assertion_identifiers_exec(t: &Vec<SyntaxNode>, ranges: &Vec<(usize, usize)>) -> (r: Vec<String>)
    ensures
        strings_view(r@) == walk_identifiers(nodes_view(t@), ranges@, 0),
{
    let ghost tv = nodes_view(t@);
    let mut out: Vec<String> = Vec::new();
    let mut i: usize = 0;
    while i < t.len()
        invariant
            tv == nodes_view(t@),
            i <= t@.len(),
            walk_identifiers(tv, ranges@, 0) == strings_view(out@) + walk_identifiers(
                tv,
                ranges@,
                i as int,
            ),
        decreases t@.len() - i,
    {
        let a = t[i].start_byte;
        let b = t[i].end_byte;
        if !overlaps_any_exec(ranges, a, b, false) {
            let j = subtree_end_exec(t, i);
            i = j;
        } else {
            let ghost before = strings_view(out@);
            if kind_is(t, i, "identifier") && overlaps_any_exec(ranges, a, b, true)
                && !t[i].text.as_str().is_empty() {
                out.push(t[i].text.clone());
                assert(strings_view(out@) =~= before + seq![tv[i as int].text]);
            }
            i = i + 1;
        }
    }
    assert(walk_identifiers(tv, ranges@, i as int) =~= Seq::<Seq<char>>::empty());
    assert(strings_view(out@) + Seq::<Seq<char>>::empty() =~= strings_view(out@));
    out
}

/// The table view of assignment pairs.
pub open spec fn pairs_view(v: Seq<(String, String)>) -> Seq<(Seq<char>, Seq<char>)> {
    v.map_values(|p: (String, String)| (p.0@, p.1@))
}

fn contains_in_set(v: &Vec<String>, s: &String) -> (r: bool)
    ensures
        r == strings_view(v@).to_set().contains(s@),
{
    contains_string(v, s)
}

/// The names that the variables in `s` stand for among the first `k`
/// entries of `m`.
pub open spec fn targets_upto(m: Seq<(Seq<char>, Seq<Seq<char>>)>, s: Set<Seq<char>>, k: int) -> Set<
    Seq<char>,
> {
    Set::new(
        |x: Seq<char>| exists|q: int| 0 <= q < k && s.contains(m[q].0) && #[trigger] m[q].1.contains(x),
    )
}

proof fn lemma_targets_step(m: Seq<(Seq<char>, Seq<Seq<char>>)>, s: Set<Seq<char>>, k: int)
    requires
        0 <= k < m.len(),
    ensures
        targets_upto(m, s, k + 1) == targets_upto(m, s, k).union(
            if s.contains(m[k].0) {
                m[k].1.to_set()
            } else {
                Set::<Seq<char>>::empty()
            },
        ),
{
    let extra = if s.contains(m[k].0) {
        m[k].1.to_set()
    } else {
        Set::<Seq<char>>::empty()
    };
    assert forall|x: Seq<char>| #[trigger] targets_upto(m, s, k + 1).contains(x) <==> targets_upto(
        m,
        s,
        k,
    ).union(extra).contains(x) by {
        if targets_upto(m, s, k + 1).contains(x) {
            let q = choose|q: int| 0 <= q < k + 1 && s.contains(m[q].0) && #[trigger] m[q].1.contains(x);
            if q == k {
                assert(extra.contains(x));
            } else {
                assert(targets_upto(m, s, k).contains(x));
            }
        }
        if targets_upto(m, s, k).contains(x) {
            let q = choose|q: int| 0 <= q < k && s.contains(m[q].0) && #[trigger] m[q].1.contains(x);
            assert(0 <= q < k + 1 && s.contains(m[q].0) && m[q].1.contains(x));
        }
        if extra.contains(x) {
            assert(0 <= k < k + 1 && s.contains(m[k].0) && m[k].1.contains(x));
        }
    }
    assert(targets_upto(m, s, k + 1) =~= targets_upto(m, s, k).union(extra));
}

/// `s` with the names its variables stand for in `m` added.
fn expand_once_exec(m: &Vec<(String, Vec<String>)>, s: &Vec<String>) -> (r: Vec<String>)
    ensures
        strings_view(r@).to_set() == expand_once(table_view(m@), strings_view(s@).to_set()),
{
    let ghost mv = table_view(m@);
    let ghost sv = strings_view(s@).to_set();
    let mut out: Vec<String> = clone_strings(s);
    let mut k: usize = 0;
    assert(targets_upto(mv, sv, 0) =~= Set::<Seq<char>>::empty());
    assert(strings_view(out@).to_set() =~= sv.union(targets_upto(mv, sv, 0)));
    while k < m.len()
        invariant
            mv == table_view(m@),
            sv == strings_view(s@).to_set(),
            k <= m@.len(),
            strings_view(out@).to_set() == sv.union(targets_upto(mv, sv, k as int)),
        decreases m@.len() - k,
    {
        let ghost before = strings_view(out@).to_set();
        assert(mv[k as int].0 == m@[k as int].0@);
        assert(mv[k as int].1 == strings_view(m@[k as int].1@));
        proof {
            lemma_targets_step(mv, sv, k as int);
        }
        if contains_in_set(s, &m[k].0) {
            let targets = &m[k].1;
            let mut x: usize = 0;
            assert(strings_view(targets@).take(0).to_set() =~= Set::<Seq<char>>::empty());
            assert(strings_view(out@).to_set() =~= before.union(
                strings_view(targets@).take(0).to_set(),
            ));
            while x < targets.len()
                invariant
                    x <= targets@.len(),
                    strings_view(out@).to_set() == before.union(
                        strings_view(targets@).take(x as int).to_set(),
                    ),
                decreases targets@.len() - x,
            {
                let ghost b2 = strings_view(out@);
                out.push(targets[x].clone());
                assert(strings_view(out@) =~= b2.push(targets@[x as int]@));
                assert(strings_view(targets@).take(x + 1) =~= strings_view(targets@).take(
                    x as int,
                ).push(targets@[x as int]@));
                proof {
                    b2.lemma_push_to_set_commute(targets@[x as int]@);
                    strings_view(targets@).take(x as int).lemma_push_to_set_commute(
                        targets@[x as int]@,
                    );
                }
                assert(strings_view(out@).to_set() =~= before.union(
                    strings_view(targets@).take(x + 1).to_set(),
                ));
                x = x + 1;
            }
            assert(strings_view(targets@).take(targets@.len() as int) =~= strings_view(targets@));
            assert(strings_view(out@).to_set() =~= sv.union(targets_upto(mv, sv, k + 1)));
        } else {
            assert(strings_view(out@).to_set() =~= sv.union(targets_upto(mv, sv, k + 1)));
        }
        k = k + 1;
    }
    assert(targets_upto(mv, sv, m@.len() as int) =~= assigned_targets(mv, sv));
    out
}

/// The names that the assertions of a Python syntax tree use, directly or
/// through up to two assignments (see [`assertion_referenced_names`]),
/// given the byte ranges of the assertions and the (variable, target)
/// pairs of the assignments that the source holds.
pub fn assertion_referenced_imports(
    t: &Vec<SyntaxNode>,
    ranges: &Vec<(usize, usize)>,
    assignments: &Vec<(String, String)>,
) -> (r: Vec<String>)
    ensures
        strings_view(r@).to_set() == assertion_referenced_names(
            nodes_view(t@),
            ranges@,
            pairs_view(assignments@),
        ),
        strings_view(r@).no_duplicates(),
{
    if ranges.len() == 0 {
        let out: Vec<String> = Vec::new();
        assert(strings_view(out@).to_set() =~= Set::<Seq<char>>::empty());
        return out;
    }
    let ghost pv = pairs_view(assignments@);
    let mut m: Vec<(String, Vec<String>)> = Vec::new();
    let mut n: usize = 0;
    while n < assignments.len()
        invariant
            pv == pairs_view(assignments@),
            n <= assignments@.len(),
            table_view(m@) == assignment_table(pv, n as int),
        decreases assignments@.len() - n,
    {
        let (v, target) = (&assignments[n].0, &assignments[n].1);
        assert(pv[n as int] == (v@, target@));
        if !v.as_str().is_empty() && !target.as_str().is_empty() && !(*v == *target) {
            let mut one: Vec<String> = Vec::new();
            one.push(target.clone());
            assert(strings_view(one@) =~= seq![target@]);
            table_extend_exec(&mut m, v.clone(), one);
        }
        n = n + 1;
    }
    let ids = assertion_identifiers_exec(t, ranges);
    let once = expand_once_exec(&m, &ids);
    let twice = expand_once_exec(&m, &once);
    let out = sort_dedup(&twice);
    proof {
        lemma_strictly_sorted_distinct(strings_view(out@));
    }
    out
}

/// A strictly sorted sequence holds no name twice.
proof fn lemma_strictly_sorted_distinct(s: Seq<Seq<char>>)
    requires
        strictly_sorted(s),
    ensures
        s.no_duplicates(),
{
    assert forall|i: int, j: int| 0 <= i < s.len() && 0 <= j < s.len() && i != j implies s[i]
        != s[j] by {
        lemma_lex_total(s[i], s[i]);
        if i < j {
            assert(lex_lt(s[i], s[j]));
        } else {
            assert(lex_lt(s[j], s[i]));
            lemma_lex_total(s[j], s[j]);
        }
    }
}

// ---------------------------------------------------------------------------
// Assertions and assignments of a test source
// ---------------------------------------------------------------------------

/// The call at `c` is `recv.name(...)` on an identifier `recv`: the pair
/// (`recv`, `name`).
pub open spec fn method_call(t: Seq<SyntaxNodeView>, c: int) -> Option<(Seq<char>, Seq<char>)> {
    if t[c].kind != "call"@ {
        None
    } else {
        match child_by_field(t, c, "function"@) {
            Some(f) => if t[f].kind == "attribute"@ {
                match (child_by_field(t, f, "object"@), child_by_field(t, f, "attribute"@)) {
                    (Some(o), Some(a)) => if t[o].kind == "identifier"@ && t[a].kind
                        == "identifier"@ {
                        Some((t[o].text, t[a].text))
                    } else {
                        None
                    },
                    _ => None,
                }
            } else {
                None
            },
            None => None,
        }
    }
}

/// The node at `i` is an assertion: an `assert` statement, a unittest
/// `self.assert...(...)` call, or a `pytest.raises(...)` call.
pub open spec fn is_assertion_node(t: Seq<SyntaxNodeView>, i: int) -> bool {
    t[i].kind == "assert_statement"@ || match method_call(t, i) {
        Some((recv, name)) => (recv == "self"@ && starts_with(name, "assert"@)) || (recv
            == "pytest"@ && name == "raises"@),
        None => false,
    }
}

/// The byte ranges of the assertions among the first `n` nodes, in order.
pub open spec fn assertion_ranges_upto(t: Seq<SyntaxNodeView>, n: int) -> Seq<(usize, usize)>
    decreases n,
{
    if n <= 0 {
        Seq::<(usize, usize)>::empty()
    } else {
        let prev = assertion_ranges_upto(t, n - 1);
        if is_assertion_node(t, n - 1) {
            prev.push((t[n - 1].start_byte, t[n - 1].end_byte))
        } else {
            prev
        }
    }
}

/// The byte ranges of the assertions of a Python syntax tree.
pub open spec fn py_assertion_ranges(t: Seq<SyntaxNodeView>) -> Seq<(usize, usize)> {
    assertion_ranges_upto(t, t.len() as int)
}

/// The (variable, name) pair of the assignment at `i`: `var = Cls(...)`
/// gives (`var`, `Cls`), `var = obj.method(...)` gives (`var`, `obj`).
pub open spec fn assignment_pair(t: Seq<SyntaxNodeView>, i: int) -> Option<(Seq<char>, Seq<char>)> {
    if t[i].kind != "assignment"@ {
        None
    } else {
        match (child_by_field(t, i, "left"@), child_by_field(t, i, "right"@)) {
            (Some(l), Some(r)) => if t[l].kind == "identifier"@ && t[r].kind == "call"@ {
                match child_by_field(t, r, "function"@) {
                    Some(f) => if t[f].kind == "identifier"@ {
                        Some((t[l].text, t[f].text))
                    } else if t[f].kind == "attribute"@ {
                        match child_by_field(t, f, "object"@) {
                            Some(o) => if t[o].kind == "identifier"@ {
                                Some((t[l].text, t[o].text))
                            } else {
                                None
                            },
                            None => None,
                        }
                    } else {
                        None
                    },
                    None => None,
                }
            } else {
                None
            },
            _ => None,
        }
    }
}

/// The assignment pairs among the first `n` nodes, in order.
pub open spec fn assignment_pairs_upto(t: Seq<SyntaxNodeView>, n: int) -> Seq<(Seq<char>, Seq<char>)>
    decreases n,
{
    if n <= 0 {
        Seq::<(Seq<char>, Seq<char>)>::empty()
    } else {
        let prev = assignment_pairs_upto(t, n - 1);
        match assignment_pair(t, n - 1) {
            Some(p) => prev.push(p),
            None => prev,
        }
    }
}

/// The assignment pairs of a Python syntax tree.
pub open spec fn py_assignment_pairs(t: Seq<SyntaxNodeView>) -> Seq<(Seq<char>, Seq<char>)> {
    assignment_pairs_upto(t, t.len() as int)
}

fn method_call_exec(t: &Vec<SyntaxNode>, c: usize) -> (r: Option<(String, String)>)
    requires
        c < t@.len(),
    ensures
        match r {
            Some(p) => method_call(nodes_view(t@), c as int) == Some((p.0@, p.1@)),
            None => method_call(nodes_view(t@), c as int) is None,
        },
{
    if !kind_is(t, c, "call") {
        return None;
    }
    match child_by_field_exec(t, c, "function") {
        Some(f) => {
            if !kind_is(t, f, "attribute") {
                return None;
            }
            match (child_by_field_exec(t, f, "object"), child_by_field_exec(t, f, "attribute")) {
                (Some(o), Some(a)) => {
                    if kind_is(t, o, "identifier") && kind_is(t, a, "identifier") {
                        Some((t[o].text.clone(), t[a].text.clone()))
                    } else {
                        None
                    }
                },
                _ => None,
            }
        },
        None => None,
    }
}

fn is_assertion_node_exec(t: &Vec<SyntaxNode>, i: usize) -> (r: bool)
    requires
        i < t@.len(),
    ensures
        r == is_assertion_node(nodes_view(t@), i as int),
{
    if kind_is(t, i, "assert_statement") {
        return true;
    }
    match method_call_exec(t, i) {
        Some((recv, name)) => {
            let rv = chars_of(recv.as_str());
            let nv = chars_of(name.as_str());
            (eq_lit(rv.as_slice(), "self") && starts_with_lit(nv.as_slice(), "assert")) || (eq_lit(
                rv.as_slice(),
                "pytest",
            ) && eq_lit(nv.as_slice(), "raises"))
        },
        None => false,
    }
}

/// The byte ranges of the assertions of a Python syntax tree (see
/// [`is_assertion_node`]).
pub fn assertion_ranges_from_syntax(t: &Vec<SyntaxNode>) -> (r: Vec<(usize, usize)>)
    ensures
        r@ == py_assertion_ranges(nodes_view(t@)),
{
    let ghost tv = nodes_view(t@);
    let mut out: Vec<(usize, usize)> = Vec::new();
    let mut i: usize = 0;
    while i < t.len()
        invariant
            tv == nodes_view(t@),
            i <= t@.len(),
            out@ == assertion_ranges_upto(tv, i as int),
        decreases t@.len() - i,
    {
        if is_assertion_node_exec(t, i) {
            out.push((t[i].start_byte, t[i].end_byte));
        }
        i = i + 1;
    }
    out
}

fn assignment_pair_exec(t: &Vec<SyntaxNode>, i: usize) -> (r: Option<(String, String)>)
    requires
        i < t@.len(),
    ensures
        match r {
            Some(p) => assignment_pair(nodes_view(t@), i as int) == Some((p.0@, p.1@)),
            None => assignment_pair(nodes_view(t@), i as int) is None,
        },
{
    if !kind_is(t, i, "assignment") {
        return None;
    }
    match (child_by_field_exec(t, i, "left"), child_by_field_exec(t, i, "right")) {
        (Some(l), Some(r)) => {
            if !(kind_is(t, l, "identifier") && kind_is(t, r, "call")) {
                return None;
            }
            match child_by_field_exec(t, r, "function") {
                Some(f) => {
                    if kind_is(t, f, "identifier") {
                        Some((t[l].text.clone(), t[f].text.clone()))
                    } else if kind_is(t, f, "attribute") {
                        match child_by_field_exec(t, f, "object") {
                            Some(o) => {
                                if kind_is(t, o, "identifier") {
                                    Some((t[l].text.clone(), t[o].text.clone()))
                                } else {
                                    None
                                }
                            },
                            None => None,
                        }
                    } else {
                        None
                    }
                },
                None => None,
            }
        },
        _ => None,
    }
}

/// The (variable, name) pairs of the assignments of a Python syntax tree
/// (see [`assignment_pair`]).
pub fn assignment_pairs_from_syntax(t: &Vec<SyntaxNode>) -> (r: Vec<(String, String)>)
    ensures
        pairs_view(r@) == py_assignment_pairs(nodes_view(t@)),
{
    let ghost tv = nodes_view(t@);
    let mut out: Vec<(String, String)> = Vec::new();
    let mut i: usize = 0;
    while i < t.len()
        invariant
            tv == nodes_view(t@),
            i <= t@.len(),
            pairs_view(out@) == assignment_pairs_upto(tv, i as int),
        decreases t@.len() - i,
    {
        let ghost before = pairs_view(out@);
        match assignment_pair_exec(t, i) {
            Some(p) => {
                let ghost pv = (p.0@, p.1@);
                out.push(p);
                assert(pairs_view(out@) =~= before.push(pv));
            },
            None => {},
        }
        i = i + 1;
    }
    out
}

/// The names that the assertions of a Python source use, directly or
/// through up to two assignments (see [`assertion_referenced_names`]); the
/// assertions are those of [`is_assertion_node`] and the assignments those
/// of [`assignment_pair`].  Empty when the source has no assertion or
/// cannot be parsed.
pub fn extract_assertion_referenced_imports(source: &str) -> (r: Vec<String>)
    ensures
        match python_syntax(source@) {
            Some(t) => strings_view(r@).to_set() == assertion_referenced_names(
                t,
                py_assertion_ranges(t),
                py_assignment_pairs(t),
            ),
            None => r@.len() == 0,
        },
        strings_view(r@).no_duplicates(),
{
    match parse_python(source) {
        Some(t) => {
            let ranges = assertion_ranges_from_syntax(&t);
            let pairs = assignment_pairs_from_syntax(&t);
            assertion_referenced_imports(&t, &ranges, &pairs)
        },
        None => Vec::new(),
    }
}

// ---------------------------------------------------------------------------
// Exported symbols (`__all__`)
// ---------------------------------------------------------------------------

/// The string entries among the children `ks` of an `__all__` list, in
/// order, each without its quotes.
pub open spec fn string_entries(t: Seq<SyntaxNodeView>, ks: Seq<int>) -> Seq<Seq<char>>
    decreases ks.len(),
{
    if ks.len() == 0 {
        Seq::<Seq<char>>::empty()
    } else {
        let prev = string_entries(t, ks.drop_last());
        if t[ks.last()].kind == "string"@ {
            prev.push(trim_quotes(t[ks.last()].text))
        } else {
            prev
        }
    }
}

/// The entries that an assignment `__all__ = [...]` (or a tuple) at `i`
/// declares; none when the node is no such assignment.
pub open spec fn all_declaration(t: Seq<SyntaxNodeView>, i: int) -> Option<Seq<Seq<char>>> {
    if t[i].kind != "assignment"@ {
        None
    } else {
        match (child_by_field(t, i, "left"@), child_by_field(t, i, "right"@)) {
            (Some(l), Some(r)) => if t[l].kind == "identifier"@ && t[l].text == "__all__"@ && (
            t[r].kind == "list"@ || t[r].kind == "tuple"@) {
                Some(string_entries(t, kids(t, r)))
            } else {
                None
            },
            _ => None,
        }
    }
}

/// The `__all__` entries declared among the first `n` nodes; none when no
/// `__all__` is declared there.
pub open spec fn all_entries_upto(t: Seq<SyntaxNodeView>, n: int) -> Option<Seq<Seq<char>>>
    decreases n,
{
    if n <= 0 {
        None
    } else {
        let prev = all_entries_upto(t, n - 1);
        match all_declaration(t, n - 1) {
            Some(es) => match prev {
                Some(p) => Some(p + es),
                None => Some(es),
            },
            None => prev,
        }
    }
}

/// The `__all__` entries of a Python syntax tree; none when the module
/// declares no `__all__` (it then exports everything).
pub open spec fn dunder_all_entries(t: Seq<SyntaxNodeView>) -> Option<Seq<Seq<char>>> {
    all_entries_upto(t, t.len() as int)
}

fn string_entries_exec(t: &Vec<SyntaxNode>, r: usize) -> (out: Vec<String>)
    requires
        r < t@.len(),
    ensures
        strings_view(out@) == string_entries(nodes_view(t@), kids(nodes_view(t@), r as int)),
{
    let ghost tv = nodes_view(t@);
    let ks = kids_exec(t, r);
    let ghost kv = ks@.map_values(|k: usize| k as int);
    let mut out: Vec<String> = Vec::new();
    let mut x: usize = 0;
    assert(kv.take(0) =~= Seq::<int>::empty());
    while x < ks.len()
        invariant
            tv == nodes_view(t@),
            kv == ks@.map_values(|k: usize| k as int),
            kv == kids(tv, r as int),
            x <= ks@.len(),
            forall|k: int| 0 <= k < ks@.len() ==> #[trigger] ks@[k] < t@.len(),
            strings_view(out@) == string_entries(tv, kv.take(x as int)),
        decreases ks@.len() - x,
    {
        let j = ks[x];
        let ghost before = strings_view(out@);
        assert(kv.take(x + 1).drop_last() =~= kv.take(x as int));
        assert(kv.take(x + 1).last() == j as int);
        if kind_is(t, j, "string") {
            let v = chars_of(t[j].text.as_str());
            let q = trim_quotes_exec(v.as_slice());
            let s = string_of(q.as_slice());
            out.push(s);
            assert(strings_view(out@) =~= before.push(trim_quotes(tv[j as int].text)));
        }
        x = x + 1;
    }
    assert(kv.take(ks@.len() as int) =~= kv);
    out
}

fn all_declaration_exec(t: &Vec<SyntaxNode>, i: usize) -> (r: Option<Vec<String>>)
    requires
        i < t@.len(),
    ensures
        match r {
            Some(v) => all_declaration(nodes_view(t@), i as int) == Some(strings_view(v@)),
            None => all_declaration(nodes_view(t@), i as int) is None,
        },
{
    if !kind_is(t, i, "assignment") {
        return None;
    }
    match (child_by_field_exec(t, i, "left"), child_by_field_exec(t, i, "right")) {
        (Some(l), Some(r)) => {
            let lt = chars_of(t[l].text.as_str());
            if kind_is(t, l, "identifier") && eq_lit(lt.as_slice(), "__all__") && (kind_is(
                t,
                r,
                "list",
            ) || kind_is(t, r, "tuple")) {
                Some(string_entries_exec(t, r))
            } else {
                None
            }
        },
        _ => None,
    }
}

/// The `__all__` entries of a Python syntax tree (see
/// [`dunder_all_entries`]).
pub fn dunder_all_from_syntax(t: &Vec<SyntaxNode>) -> (r: Option<Vec<String>>)
    ensures
        match r {
            Some(v) => dunder_all_entries(nodes_view(t@)) == Some(strings_view(v@)),
            None => dunder_all_entries(nodes_view(t@)) is None,
        },
{
    let ghost tv = nodes_view(t@);
    let mut acc: Option<Vec<String>> = None;
    let mut i: usize = 0;
    while i < t.len()
        invariant
            tv == nodes_view(t@),
            i <= t@.len(),
            match acc {
                Some(v) => all_entries_upto(tv, i as int) == Some(strings_view(v@)),
                None => all_entries_upto(tv, i as int) is None,
            },
        decreases t@.len() - i,
    {
        match all_declaration_exec(t, i) {
            Some(es) => {
                let ghost ev = strings_view(es@);
                match acc {
                    Some(mut v) => {
                        let ghost before = strings_view(v@);
                        let mut y: usize = 0;
                        while y < es.len()
                            invariant
                                y <= es@.len(),
                                strings_view(v@) == before + ev.take(y as int),
                                ev == strings_view(es@),
                            decreases es@.len() - y,
                        {
                            let ghost b2 = strings_view(v@);
                            let item = es[y].clone();
                            assert(item@ == es@[y as int]@);
                            v.push(item);
                            assert(strings_view(v@) =~= b2.push(es@[y as int]@));
                            assert(ev[y as int] == es@[y as int]@);
                            assert(ev.take(y + 1) =~= ev.take(y as int).push(es@[y as int]@));
                            assert(strings_view(v@) =~= before + ev.take(y + 1));
                            y = y + 1;
                        }
                        assert(ev.take(es@.len() as int) =~= ev);
                        acc = Some(v);
                    },
                    None => {
                        acc = Some(es);
                    },
                }
            },
            None => {},
        }
        i = i + 1;
    }
    acc
}

/// Whether a Python source exports any of `symbols`: when it declares
/// `__all__`, whether some symbol is among its entries; when it declares
/// none, or cannot be parsed, it exports everything.
pub fn exports_any_symbol(source: &str, symbols: &Vec<String>) -> (r: bool)
    ensures
        match python_syntax(source@) {
            Some(t) => r == match dunder_all_entries(t) {
                None => true,
                Some(l) => exists|k: int| 0 <= k < symbols@.len() && l.contains(#[trigger] symbols@[k]@),
            },
            None => r,
        },
{
    match parse_python(source) {
        Some(t) => match dunder_all_from_syntax(&t) {
            None => true,
            Some(l) => {
                let ghost lv = strings_view(l@);
                let mut k: usize = 0;
                while k < symbols.len()
                    invariant
                        lv == strings_view(l@),
                        python_syntax(source@) == Some(nodes_view(t@)),
                        dunder_all_entries(nodes_view(t@)) == Some(lv),
                        k <= symbols@.len(),
                        forall|q: int| 0 <= q < k ==> !lv.contains(#[trigger] symbols@[q]@),
                    decreases symbols@.len() - k,
                {
                    if contains_string(&l, &symbols[k]) {
                        assert(0 <= k < symbols@.len() && lv.contains(symbols@[k as int]@));
                        return true;
                    }
                    k = k + 1;
                }
                false
            },
        },
        None => true,
    }
}

// ---------------------------------------------------------------------------
// Production functions
// ---------------------------------------------------------------------------

/// The node that places the function defined at `f`: its decorated
/// definition when it is decorated, else the definition itself.
pub open spec fn def_holder(t: Seq<SyntaxNodeView>, f: int) -> int {
    match parent_of(t, f) {
        Some(p) => if t[p].kind == "decorated_definition"@ {
            p
        } else {
            f
        },
        None => f,
    }
}

/// Where the function defined at `f` stands: at module level (`Some(None)`),
/// directly in the body of a class (`Some(Some(class name))`), or elsewhere
/// (`None`, such as a function nested in another).
pub open spec fn py_function_class(t: Seq<SyntaxNodeView>, f: int) -> Option<Option<Seq<char>>> {
    match parent_of(t, def_holder(t, f)) {
        Some(q) => if t[q].kind == "module"@ {
            Some(None)
        } else if t[q].kind == "block"@ {
            match parent_of(t, q) {
                Some(c) => if t[c].kind == "class_definition"@ {
                    match child_by_field(t, c, "name"@) {
                        Some(n) => Some(Some(t[n].text)),
                        None => None,
                    }
                } else {
                    None
                },
                None => None,
            }
        } else {
            None
        },
        None => None,
    }
}

/// The production function that the node at `f` defines, if any.
pub open spec fn py_function_at(t: Seq<SyntaxNodeView>, f: int, file: Seq<char>) -> Option<
    ProductionFunctionView,
> {
    if t[f].kind == "function_definition"@ {
        match (child_by_field(t, f, "name"@), py_function_class(t, f)) {
            (Some(n), Some(c)) => Some(
                ProductionFunctionView {
                    name: t[n].text,
                    file: file,
                    line: line_of(t[n].row),
                    class_name: c,
                    is_exported: true,
                },
            ),
            _ => None,
        }
    } else {
        None
    }
}

/// The production functions among the first `n` nodes, each name and
/// class once.
pub open spec fn py_functions_upto(t: Seq<SyntaxNodeView>, file: Seq<char>, n: int) -> Seq<
    ProductionFunctionView,
>
    decreases n,
{
    if n <= 0 {
        Seq::<ProductionFunctionView>::empty()
    } else {
        let prev = py_functions_upto(t, file, n - 1);
        match py_function_at(t, n - 1, file) {
            Some(f) => add_function(prev, f),
            None => prev,
        }
    }
}

/// The module-level functions and class methods (decorated or not) of a
/// Python syntax tree, in source order, each name and class once.
pub open spec fn py_production_functions(t: Seq<SyntaxNodeView>, file: Seq<char>) -> Seq<
    ProductionFunctionView,
> {
    py_functions_upto(t, file, t.len() as int)
}

fn def_holder_exec(t: &Vec<SyntaxNode>, f: usize) -> (r: usize)
    requires
        f < t@.len(),
    ensures
        r == def_holder(nodes_view(t@), f as int),
        r < t@.len(),
{
    match parent_exec(t, f) {
        Some(p) => {
            if kind_is(t, p, "decorated_definition") {
                p
            } else {
                f
            }
        },
        None => f,
    }
}

fn py_function_class_exec(t: &Vec<SyntaxNode>, f: usize) -> (r: Option<Option<String>>)
    requires
        f < t@.len(),
    ensures
        match r {
            Some(c) => py_function_class(nodes_view(t@), f as int) == Some(opt_string_view(c)),
            None => py_function_class(nodes_view(t@), f as int) is None,
        },
{
    let h = def_holder_exec(t, f);
    let q = match parent_exec(t, h) {
        Some(q) => q,
        None => {
            return None;
        },
    };
    if kind_is(t, q, "module") {
        return Some(None);
    }
    if !kind_is(t, q, "block") {
        return None;
    }
    match parent_exec(t, q) {
        Some(c) => {
            if kind_is(t, c, "class_definition") {
                match child_by_field_exec(t, c, "name") {
                    Some(n) => Some(Some(t[n].text.clone())),
                    None => None,
                }
            } else {
                None
            }
        },
        None => None,
    }
}

/// The production functions of a Python syntax tree (see
/// [`py_production_functions`]).
pub fn production_functions_from_syntax(t: &Vec<SyntaxNode>, file: &str) -> (r: Vec<
    ProductionFunction,
>)
    ensures
        functions_view(r@) == py_production_functions(nodes_view(t@), file@),
{
    let ghost tv = nodes_view(t@);
    let mut out: Vec<ProductionFunction> = Vec::new();
    let mut i: usize = 0;
    while i < t.len()
        invariant
            tv == nodes_view(t@),
            i <= t@.len(),
            functions_view(out@) == py_functions_upto(tv, file@, i as int),
        decreases t@.len() - i,
    {
        if kind_is(t, i, "function_definition") {
            match child_by_field_exec(t, i, "name") {
                Some(n) => match py_function_class_exec(t, i) {
                    Some(c) => {
                        let f = ProductionFunction {
                            name: t[n].text.clone(),
                            file: String::from_str(file),
                            line: t[n].row.saturating_add(1),
                            class_name: c,
                            is_exported: true,
                        };
                        add_function_exec(&mut out, f);
                    },
                    None => {},
                },
                None => {},
            }
        }
        i = i + 1;
    }
    out
}

// ---------------------------------------------------------------------------
// Laws
// ---------------------------------------------------------------------------

/// A file is never both a production file and a test file: a path with a
/// production stem has no test stem.
pub proof fn law_production_is_not_test(path: Seq<char>)
    requires
        py_production_stem(path) is Some,
    ensures
        py_test_stem(path) is None,
{
}

/// A package index (`__init__.py`) is a barrel, never a production file
/// of its own.
pub proof fn law_barrel_has_no_production_stem(path: Seq<char>)
    requires
        file_name(path) == Some("__init__.py"@),
    ensures
        py_production_stem(path) is None,
{
    reveal_strlit("__init__.py");
    reveal_strlit(".py");
    reveal_strlit("__init__");
    let name = "__init__.py"@;
    assert(name.subrange(name.len() - 3, name.len() as int) =~= ".py"@);
    assert(strip_suffix(name, ".py"@) == Some(name.take(name.len() - 3)));
    assert(name.take(name.len() - 3) =~= "__init__"@);
}

/// Knowing that a file is production code never makes it a helper: a file
/// that is a helper although known to be production is a helper anyway.
pub proof fn law_known_production_helper(path: Seq<char>)
    requires
        py_is_non_sut_helper(path, true),
    ensures
        py_is_non_sut_helper(path, false),
{
}

/// A double-quoted string literal without inner double quotes unquotes to
/// its contents.
pub proof fn law_unquote_double_quoted(s: Seq<char>)
    requires
        !s.contains('"'),
    ensures
        py_unquote(seq!['"'] + s + seq!['"']) == s,
{
    let raw0 = seq!['"'] + s + seq!['"'];
    reveal_strlit("\"\"\"");
    reveal_strlit("'''");
    reveal_strlit("\"");
    assert(!is_string_prefix_letter(raw0[0]));
    assert(trim_start_by(raw0, string_prefix_letter()) == raw0);
    if raw0.len() >= 3 {
        if s.len() > 0 {
            assert(raw0[1] == s[0]);
            assert(s[0] != '"') by {
                assert(s.contains(s[0]));
            }
            assert(raw0.subrange(0, 3)[1] != '"');
        }
    }
    assert(strip_prefix(raw0, "\"\"\""@) is None);
    assert(strip_prefix(raw0, "'''"@) is None) by {
        if raw0.len() >= 3 {
            assert(raw0.subrange(0, 3)[0] == '"');
        }
    }
    assert(raw0.subrange(0, 1) =~= "\""@);
    let rest = raw0.subrange(1, raw0.len() as int);
    assert(strip_prefix(raw0, "\""@) == Some(rest));
    assert(rest =~= s + seq!['"']);
    assert(rest.subrange(rest.len() - 1, rest.len() as int) =~= "\""@);
    assert(rest.subrange(0, rest.len() - 1) =~= s);
}

/// Some entry of table `g` has key `k` and lists `s`.
pub open spec fn grouped_in(g: Seq<(Seq<char>, Seq<Seq<char>>)>, k: Seq<char>, s: Seq<char>) -> bool {
    exists|q: int| 0 <= q < g.len() && g[q].0 == k && (#[trigger] g[q].1).contains(s)
}

proof fn lemma_entry_groups(raw: Seq<(Seq<char>, Seq<char>, usize)>, n: int)
    requires
        0 <= n <= raw.len(),
    ensures
        keys_unique(entry_groups(raw, n)),
        forall|j: int| 0 <= j < n ==> grouped_in(entry_groups(raw, n), (#[trigger] raw[j]).0, raw[j].1),
    decreases n,
{
    if n > 0 {
        lemma_entry_groups(raw, n - 1);
        let g = entry_groups(raw, n - 1);
        let k = raw[n - 1].0;
        let s = raw[n - 1].1;
        lemma_table_extend_unique(g, k, seq![s]);
        lemma_key_index(g, k);
        let g2 = entry_groups(raw, n);
        assert(g2 == table_extend(g, k, seq![s]));
        assert forall|j: int| 0 <= j < n implies grouped_in(g2, (#[trigger] raw[j]).0, raw[j].1) by {
            match key_index(g, k) {
                Some(i) => {
                    if j == n - 1 {
                        assert(g2[i].1 == g[i].1 + seq![s]);
                        assert(g2[i].1[g[i].1.len() as int] == s);
                        assert(g2[i].1.contains(s));
                        assert(0 <= i < g2.len() && g2[i].0 == raw[j].0 && g2[i].1.contains(raw[j].1));
                    } else {
                        assert(grouped_in(g, raw[j].0, raw[j].1));
                        let q = choose|q: int|
                            0 <= q < g.len() && g[q].0 == raw[j].0 && (#[trigger] g[q].1).contains(
                                raw[j].1,
                            );
                        if q == i {
                            let w = choose|w: int| 0 <= w < g[q].1.len() && g[q].1[w] == raw[j].1;
                            assert(g2[q].1[w] == raw[j].1);
                            assert(g2[q].1.contains(raw[j].1));
                        } else {
                            assert(g2[q] == g[q]);
                        }
                        assert(0 <= q < g2.len() && g2[q].0 == raw[j].0 && g2[q].1.contains(raw[j].1));
                    }
                },
                None => {
                    if j == n - 1 {
                        let q = g.len() as int;
                        assert(g2[q] == (k, seq![s]));
                        assert(g2[q].1[0] == s);
                        assert(0 <= q < g2.len() && g2[q].0 == raw[j].0 && g2[q].1.contains(raw[j].1));
                    } else {
                        assert(grouped_in(g, raw[j].0, raw[j].1));
                        let q = choose|q: int|
                            0 <= q < g.len() && g[q].0 == raw[j].0 && (#[trigger] g[q].1).contains(
                                raw[j].1,
                            );
                        assert(g2[q] == g[q]);
                        assert(0 <= q < g2.len() && g2[q].0 == raw[j].0 && g2[q].1.contains(raw[j].1));
                    }
                },
            }
        }
    }
}

proof fn lemma_group_mappings(
    raw: Seq<(Seq<char>, Seq<char>, usize)>,
    spec: Seq<char>,
    syms: Seq<Seq<char>>,
    file: Seq<char>,
    n: int,
)
    requires
        0 <= n <= raw.len(),
    ensures
        forall|x: int|
            0 <= x < group_mappings(raw, spec, syms, file, n).len() ==> {
                let m = #[trigger] group_mappings(raw, spec, syms, file, n)[x];
                &&& m.module_specifier == spec
                &&& m.symbols == syms
                &&& exists|j: int| 0 <= j < n && raw[j].0 == spec && raw[j].1 == m.symbol_name
            },
    decreases n,
{
    if n > 0 {
        lemma_group_mappings(raw, spec, syms, file, n - 1);
        let prev = group_mappings(raw, spec, syms, file, n - 1);
        let cur = group_mappings(raw, spec, syms, file, n);
        assert forall|x: int| 0 <= x < cur.len() implies {
            let m = #[trigger] cur[x];
            &&& m.module_specifier == spec
            &&& m.symbols == syms
            &&& exists|j: int| 0 <= j < n && raw[j].0 == spec && raw[j].1 == m.symbol_name
        } by {
            if x < prev.len() {
                assert(cur[x] == prev[x]);
                let j = choose|j: int| 0 <= j < n - 1 && raw[j].0 == spec && raw[j].1 == prev[x].symbol_name;
                assert(0 <= j < n && raw[j].0 == spec && raw[j].1 == cur[x].symbol_name);
            } else {
                assert(raw[n - 1].0 == spec);
                assert(0 <= n - 1 < n && raw[n - 1].0 == spec && raw[n - 1].1 == cur[x].symbol_name);
            }
        }
    }
}

proof fn lemma_grouped_mappings(
    raw: Seq<(Seq<char>, Seq<char>, usize)>,
    groups: Seq<(Seq<char>, Seq<Seq<char>>)>,
    file: Seq<char>,
    n: int,
)
    requires
        0 <= n <= groups.len(),
    ensures
        forall|x: int|
            0 <= x < grouped_mappings(raw, groups, file, n).len() ==> exists|g: int|
                0 <= g < n && (#[trigger] grouped_mappings(raw, groups, file, n)[x]).module_specifier
                    == groups[g].0 && grouped_mappings(raw, groups, file, n)[x].symbols
                    == groups[g].1 && exists|j: int|
                    0 <= j < raw.len() && raw[j].0 == groups[g].0 && raw[j].1
                        == grouped_mappings(raw, groups, file, n)[x].symbol_name,
    decreases n,
{
    if n > 0 {
        lemma_grouped_mappings(raw, groups, file, n - 1);
        let prev = grouped_mappings(raw, groups, file, n - 1);
        let tail = group_mappings(raw, groups[n - 1].0, groups[n - 1].1, file, raw.len() as int);
        lemma_group_mappings(raw, groups[n - 1].0, groups[n - 1].1, file, raw.len() as int);
        let cur = grouped_mappings(raw, groups, file, n);
        assert(cur == prev + tail);
        assert forall|x: int| 0 <= x < cur.len() implies exists|g: int|
            0 <= g < n && (#[trigger] cur[x]).module_specifier == groups[g].0 && cur[x].symbols
                == groups[g].1 && exists|j: int|
                0 <= j < raw.len() && raw[j].0 == groups[g].0 && raw[j].1 == cur[x].symbol_name by {
            if x < prev.len() {
                assert(cur[x] == prev[x]);
                let g = choose|g: int|
                    0 <= g < n - 1 && (#[trigger] prev[x]).module_specifier == groups[g].0
                        && prev[x].symbols == groups[g].1 && exists|j: int|
                        0 <= j < raw.len() && raw[j].0 == groups[g].0 && raw[j].1
                            == prev[x].symbol_name;
                assert(0 <= g < n);
            } else {
                let y = x - prev.len();
                assert(cur[x] == tail[y]);
                let m = tail[y];
                assert(m.module_specifier == groups[n - 1].0);
                let j = choose|j: int|
                    0 <= j < raw.len() && raw[j].0 == groups[n - 1].0 && raw[j].1 == m.symbol_name;
                assert(0 <= n - 1 < n);
            }
        }
    }
}

/// Each relative-import mapping carries its own symbol among its symbols,
/// and mappings of the same specifier carry the same symbols (all that
/// the file imports from it).
pub proof fn law_relative_mappings_grouped(t: Seq<SyntaxNodeView>, file: Seq<char>)
    ensures
        forall|i: int|
            0 <= i < py_relative_mappings(t, file).len() ==> (#[trigger] py_relative_mappings(
                t,
                file,
            )[i]).symbols.contains(py_relative_mappings(t, file)[i].symbol_name),
        forall|i: int, k: int|
            0 <= i < py_relative_mappings(t, file).len() && 0 <= k < py_relative_mappings(
                t,
                file,
            ).len() && (#[trigger] py_relative_mappings(t, file)[i]).module_specifier
                == (#[trigger] py_relative_mappings(t, file)[k]).module_specifier
                ==> py_relative_mappings(t, file)[i].symbols == py_relative_mappings(
                t,
                file,
            )[k].symbols,
{
    let imps = py_imports(t);
    let raw = relative_entries(imps, imps.len() as int);
    let groups = entry_groups(raw, raw.len() as int);
    let ms = py_relative_mappings(t, file);
    lemma_entry_groups(raw, raw.len() as int);
    lemma_grouped_mappings(raw, groups, file, groups.len() as int);
    assert forall|i: int| 0 <= i < ms.len() implies (#[trigger] ms[i]).symbols.contains(
        ms[i].symbol_name,
    ) by {
        let g = choose|g: int|
            0 <= g < groups.len() && (#[trigger] ms[i]).module_specifier == groups[g].0
                && ms[i].symbols == groups[g].1 && exists|j: int|
                0 <= j < raw.len() && raw[j].0 == groups[g].0 && raw[j].1 == ms[i].symbol_name;
        let j = choose|j: int|
            0 <= j < raw.len() && raw[j].0 == groups[g].0 && raw[j].1 == ms[i].symbol_name;
        assert(grouped_in(groups, raw[j].0, raw[j].1));
        let q = choose|q: int|
            0 <= q < groups.len() && groups[q].0 == raw[j].0 && (#[trigger] groups[q].1).contains(
                raw[j].1,
            );
        assert(q == g) by {
            if q < g {
                assert(groups[q].0 != groups[g].0);
            } else if q > g {
                assert(groups[g].0 != groups[q].0);
            }
        }
    }
    assert forall|i: int, k: int|
        0 <= i < ms.len() && 0 <= k < ms.len() && (#[trigger] ms[i]).module_specifier
            == (#[trigger] ms[k]).module_specifier implies ms[i].symbols == ms[k].symbols by {
        let gi = choose|g: int|
            0 <= g < groups.len() && (#[trigger] ms[i]).module_specifier == groups[g].0
                && ms[i].symbols == groups[g].1 && exists|j: int|
                0 <= j < raw.len() && raw[j].0 == groups[g].0 && raw[j].1 == ms[i].symbol_name;
        let gk = choose|g: int|
            0 <= g < groups.len() && (#[trigger] ms[k]).module_specifier == groups[g].0
                && ms[k].symbols == groups[g].1 && exists|j: int|
                0 <= j < raw.len() && raw[j].0 == groups[g].0 && raw[j].1 == ms[k].symbol_name;
        if gi != gk {
            if gi < gk {
                assert(groups[gi].0 != groups[gk].0);
            } else {
                assert(groups[gk].0 != groups[gi].0);
            }
        }
    }
}

/// A sequence of names without repetition.
pub open spec fn no_dups(s: Seq<Seq<char>>) -> bool {
    forall|i: int, j: int| 0 <= i < j < s.len() ==> s[i] != s[j]
}

/// Each specifier has one entry, whose symbols are listed once each, and
/// none is a namespace wildcard.
pub open spec fn reexports_well_formed(m: Seq<BarrelReExportView>) -> bool {
    &&& forall|i: int, j: int|
        0 <= i < j < m.len() ==> (#[trigger] m[i]).from_specifier != (#[trigger] m[j]).from_specifier
    &&& forall|i: int| 0 <= i < m.len() ==> no_dups((#[trigger] m[i]).symbols)
    &&& forall|i: int| 0 <= i < m.len() ==> !(#[trigger] m[i]).namespace_wildcard
}

proof fn lemma_reexport_index_none(m: Seq<BarrelReExportView>, spec: Seq<char>)
    ensures
        reexport_index(m, spec) is None ==> forall|j: int|
            0 <= j < m.len() ==> (#[trigger] m[j]).from_specifier != spec,
    decreases m.len(),
{
    if m.len() > 0 {
        lemma_reexport_index_none(m.drop_last(), spec);
        if reexport_index(m, spec) is None {
            assert forall|j: int| 0 <= j < m.len() implies (#[trigger] m[j]).from_specifier != spec by {
                if j < m.len() - 1 {
                    assert(m.drop_last()[j] == m[j]);
                }
            }
        }
    }
}

proof fn lemma_push_new_no_dups(s: Seq<Seq<char>>, x: Seq<char>)
    requires
        no_dups(s),
    ensures
        no_dups(push_new(s, x)),
{
    if !s.contains(x) {
        let t = s.push(x);
        assert forall|i: int, j: int| 0 <= i < j < t.len() implies t[i] != t[j] by {
            if j == s.len() {
                if t[i] == x {
                    assert(s.contains(x));
                }
            }
        }
    }
}

proof fn lemma_add_reexport(
    m: Seq<BarrelReExportView>,
    spec: Seq<char>,
    sym: Option<Seq<char>>,
    wildcard: bool,
)
    requires
        reexports_well_formed(m),
    ensures
        reexports_well_formed(add_reexport(m, spec, sym, wildcard)),
{
    lemma_reexport_index(m, spec);
    lemma_reexport_index_none(m, spec);
    let out = add_reexport(m, spec, sym, wildcard);
    match reexport_index(m, spec) {
        Some(i) => {
            if let Some(s) = sym {
                lemma_push_new_no_dups(m[i].symbols, s);
            }
            assert forall|a: int, b: int| 0 <= a < b < out.len() implies (#[trigger] out[a]).from_specifier
                != (#[trigger] out[b]).from_specifier by {
                assert(m[a].from_specifier != m[b].from_specifier);
            }
            assert forall|a: int| 0 <= a < out.len() implies no_dups((#[trigger] out[a]).symbols) by {
                if a != i {
                    assert(out[a] == m[a]);
                }
            }
            assert forall|a: int| 0 <= a < out.len() implies !(#[trigger] out[a]).namespace_wildcard by {
                if a != i {
                    assert(out[a] == m[a]);
                }
            }
        },
        None => {
            assert forall|a: int, b: int| 0 <= a < b < out.len() implies (#[trigger] out[a]).from_specifier
                != (#[trigger] out[b]).from_specifier by {
                if b == m.len() {
                    assert(out[a] == m[a]);
                } else {
                    assert(out[a] == m[a] && out[b] == m[b]);
                }
            }
            assert forall|a: int| 0 <= a < out.len() implies no_dups((#[trigger] out[a]).symbols) by {
                if a < m.len() {
                    assert(out[a] == m[a]);
                }
            }
            assert forall|a: int| 0 <= a < out.len() implies !(#[trigger] out[a]).namespace_wildcard by {
                if a < m.len() {
                    assert(out[a] == m[a]);
                }
            }
        },
    }
}

proof fn lemma_py_reexports_upto(imps: Seq<PyImportView>, n: int)
    ensures
        reexports_well_formed(py_reexports_upto(imps, n)),
    decreases n,
{
    if n > 0 {
        lemma_py_reexports_upto(imps, n - 1);
        let prev = py_reexports_upto(imps, n - 1);
        let imp = imps[n - 1];
        let spec = py_from_base(imp.module);
        lemma_add_reexport(prev, spec, None, true);
        lemma_add_reexport(prev, spec, Some(imp.symbol), false);
    }
}

/// The re-exports of a package index list each specifier once, each
/// symbol of an entry once, and no namespace wildcard.
pub proof fn law_reexports_well_formed(t: Seq<SyntaxNodeView>)
    ensures
        reexports_well_formed(py_reexports(t)),
{
    lemma_py_reexports_upto(py_imports(t), py_imports(t).len() as int);
}

/// A test file `X_test.py`, in any directory, is the test of `X`: its test
/// stem is `X` and it has no production stem (for a name `X` without `/`
/// that does not itself begin with `test_`).
pub proof fn law_suffix_test_file_stem(d: Seq<char>, x: Seq<char>)
    requires
        !x.contains('/'),
        !starts_with(x, "test_"@),
    ensures
        py_test_stem(d + seq!['/'] + (x + "_test.py"@)) == Some(x),
        py_production_stem(d + seq!['/'] + (x + "_test.py"@)) is None,
{
    reveal_strlit("_test.py");
    reveal_strlit(".py");
    reveal_strlit("_test");
    let name = x + "_test.py"@;
    assert(!name.contains('/')) by {
        if name.contains('/') {
            let i = choose|i: int| 0 <= i < name.len() && name[i] == '/';
            if i < x.len() {
                assert(x[i] == '/');
                assert(x.contains('/'));
            }
        }
    }
    assert(name != seq!['.'] && name != seq!['.', '.']) by {
        assert(name.len() >= 8);
    }
    crate::paths::lemma_file_name_join(d, name);
    assert(name.skip(name.len() - 3) =~= ".py"@);
    assert(name.take(name.len() - 3) =~= x + "_test"@);
    crate::text::lemma_test_affixes(x);
    assert(ends_with(x + "_test"@, "_test"@));
}

/// The file-name convention pairs a test file `test_X.py` with a
/// production file `X.py`, whatever their directories: both give the stem
/// `X` (for a plain name `X`: no `/`, no leading `_` or trailing `__`, not
/// itself test-like).
pub proof fn law_test_and_production_share_stem(test_dir: Seq<char>, prod_dir: Seq<char>, x: Seq<char>)
    requires
        !x.contains('/'),
        !starts_with(x, "_"@),
        !ends_with(x, "__"@),
        !starts_with(x, "test_"@),
        !ends_with(x, "_test"@),
        x != "tests"@,
    ensures
        py_test_stem(test_dir + seq!['/'] + ("test_"@ + x + ".py"@)) == Some(x),
        py_production_stem(prod_dir + seq!['/'] + (x + ".py"@)) == Some(x),
{
    reveal_strlit("test_");
    reveal_strlit(".py");
    reveal_strlit("_");
    reveal_strlit("__");
    let tn = "test_"@ + x + ".py"@;
    let pn = x + ".py"@;
    assert(!tn.contains('/')) by {
        if tn.contains('/') {
            let i = choose|i: int| 0 <= i < tn.len() && tn[i] == '/';
            if 5 <= i < 5 + x.len() {
                assert(x[i - 5] == '/');
                assert(x.contains('/'));
            }
        }
    }
    assert(!pn.contains('/')) by {
        if pn.contains('/') {
            let i = choose|i: int| 0 <= i < pn.len() && pn[i] == '/';
            if i < x.len() {
                assert(x[i] == '/');
                assert(x.contains('/'));
            }
        }
    }
    assert(tn != seq!['.'] && tn != seq!['.', '.']) by {
        assert(tn.len() >= 8);
    }
    assert(pn != seq!['.'] && pn != seq!['.', '.']) by {
        assert(pn.len() >= 3);
    }
    crate::paths::lemma_file_name_join(test_dir, tn);
    crate::paths::lemma_file_name_join(prod_dir, pn);
    assert(tn.skip(tn.len() - 3) =~= ".py"@);
    assert(tn.take(tn.len() - 3) =~= "test_"@ + x);
    assert(("test_"@ + x).take(5) =~= "test_"@);
    assert(("test_"@ + x).skip(5) =~= x);
    assert(pn.skip(pn.len() - 3) =~= ".py"@);
    assert(pn.take(pn.len() - 3) =~= x);
    assert(x != "__init__"@) by {
        reveal_strlit("__init__");
        if x == "__init__"@ {
            assert(x.take(1) =~= "_"@);
        }
    }
}

/// The specifier is relative: it starts with `./` or `../`.
pub open spec fn is_relative_spec(s: Seq<char>) -> bool {
    starts_with(s, "./"@) || starts_with(s, "../"@)
}

proof fn lemma_relative_entries(imps: Seq<PyImportView>, n: int)
    ensures
        forall|j: int|
            0 <= j < relative_entries(imps, n).len() ==> is_relative_spec(
                (#[trigger] relative_entries(imps, n)[j]).0,
            ),
    decreases n,
{
    if n > 0 {
        lemma_relative_entries(imps, n - 1);
        let prev = relative_entries(imps, n - 1);
        let cur = relative_entries(imps, n);
        if let Some(e) = relative_entry(imps[n - 1]) {
            let imp = imps[n - 1];
            if imp.module == "."@ {
                reveal_strlit("./");
                assert(("./"@ + imp.symbol).take(2) =~= "./"@);
            }
            assert forall|j: int| 0 <= j < cur.len() implies is_relative_spec(
                (#[trigger] cur[j]).0,
            ) by {
                if j < prev.len() {
                    assert(cur[j] == prev[j]);
                }
            }
        }
    }
}

/// Every relative-import mapping names a relative specifier (`./...` or
/// `../...`).
pub proof fn law_relative_mappings_are_relative(t: Seq<SyntaxNodeView>, file: Seq<char>)
    ensures
        forall|i: int|
            0 <= i < py_relative_mappings(t, file).len() ==> is_relative_spec(
                (#[trigger] py_relative_mappings(t, file)[i]).module_specifier,
            ),
{
    let imps = py_imports(t);
    let raw = relative_entries(imps, imps.len() as int);
    let groups = entry_groups(raw, raw.len() as int);
    let ms = py_relative_mappings(t, file);
    lemma_relative_entries(imps, imps.len() as int);
    lemma_grouped_mappings(raw, groups, file, groups.len() as int);
    assert forall|i: int| 0 <= i < ms.len() implies is_relative_spec(
        (#[trigger] ms[i]).module_specifier,
    ) by {
        let g = choose|g: int|
            0 <= g < groups.len() && (#[trigger] ms[i]).module_specifier == groups[g].0
                && ms[i].symbols == groups[g].1 && exists|j: int|
                0 <= j < raw.len() && raw[j].0 == groups[g].0 && raw[j].1 == ms[i].symbol_name;
        let j = choose|j: int|
            0 <= j < raw.len() && raw[j].0 == groups[g].0 && raw[j].1 == ms[i].symbol_name;
        assert(is_relative_spec(raw[j].0));
    }
}

proof fn lemma_py_reexports_relative(imps: Seq<PyImportView>, n: int)
    ensures
        forall|j: int|
            0 <= j < py_reexports_upto(imps, n).len() ==> is_relative_spec(
                (#[trigger] py_reexports_upto(imps, n)[j]).from_specifier,
            ),
    decreases n,
{
    if n > 0 {
        lemma_py_reexports_relative(imps, n - 1);
        let prev = py_reexports_upto(imps, n - 1);
        let cur = py_reexports_upto(imps, n);
        let imp = imps[n - 1];
        let spec = py_from_base(imp.module);
        lemma_reexport_index(prev, spec);
        assert forall|j: int| 0 <= j < cur.len() implies is_relative_spec(
            (#[trigger] cur[j]).from_specifier,
        ) by {
            if j < prev.len() && cur[j].from_specifier != spec {
                assert(cur[j].from_specifier == prev[j].from_specifier);
            }
        }
    }
}

/// Every re-export of a package index comes from a relative specifier.
pub proof fn law_reexports_are_relative(t: Seq<SyntaxNodeView>)
    ensures
        forall|j: int|
            0 <= j < py_reexports(t).len() ==> is_relative_spec(
                (#[trigger] py_reexports(t)[j]).from_specifier,
            ),
{
    lemma_py_reexports_relative(py_imports(t), py_imports(t).len() as int);
}

proof fn lemma_table_keys(m: Seq<(Seq<char>, Seq<Seq<char>>)>, k: Seq<char>, syms: Seq<Seq<char>>)
    ensures
        forall|j: int|
            0 <= j < table_extend(m, k, syms).len() ==> (#[trigger] table_extend(m, k, syms)[j]).0
                == k || (j < m.len() && table_extend(m, k, syms)[j].0 == m[j].0),
        forall|j: int|
            0 <= j < table_insert_absent(m, k, syms).len() ==> (#[trigger] table_insert_absent(
                m,
                k,
                syms,
            )[j]).0 == k || (j < m.len() && table_insert_absent(m, k, syms)[j].0 == m[j].0),
{
    lemma_key_index(m, k);
}

proof fn lemma_specifiers_absolute(t: Seq<SyntaxNodeView>, imps: Seq<PyImportView>, n: int)
    ensures
        forall|j: int|
            0 <= j < specifiers_upto(t, imps, n).len() ==> {
                let k = (#[trigger] specifiers_upto(t, imps, n)[j]).0;
                k.len() > 0 && !is_relative_spec(k)
            },
    decreases n,
{
    if n > 0 {
        lemma_specifiers_absolute(t, imps, n - 1);
        let prev = specifiers_upto(t, imps, n - 1);
        let imp = imps[n - 1];
        let spec = py_absolute_specifier(imp.module);
        lemma_table_keys(prev, spec, bare_import_attributes(t, imp.module));
        lemma_table_keys(prev, spec, seq![imp.symbol]);
    }
}

/// The absolute-import table lists only non-empty, non-relative specifiers.
pub proof fn law_import_specifiers_are_absolute(t: Seq<SyntaxNodeView>)
    ensures
        forall|j: int|
            0 <= j < py_import_specifiers(t).len() ==> {
                let k = (#[trigger] py_import_specifiers(t)[j]).0;
                k.len() > 0 && !is_relative_spec(k)
            },
{
    lemma_specifiers_absolute(t, py_imports(t), py_imports(t).len() as int);
}


proof fn lemma_repeat_prefix(s: Seq<char>, n: nat)
    requires
        n >= 1,
    ensures
        starts_with(repeat(s, n), s),
    decreases n,
{
    if n > 1 {
        lemma_repeat_prefix(s, (n - 1) as nat);
        let r = repeat(s, (n - 1) as nat);
        assert((r + s).take(s.len() as int) =~= r.take(s.len() as int));
    } else {
        assert(repeat(s, 0) =~= Seq::<char>::empty());
        assert((Seq::<char>::empty() + s).take(s.len() as int) =~= s);
    }
}

proof fn lemma_absolute_key(m: Seq<char>)
    ensures
        absolute_key(m) matches Some(k) ==> !starts_with(m, "."@) && k == replace_seq(
            m,
            "."@,
            "/"@,
        ),
{
    reveal_strlit(".");
    reveal_strlit("./");
    reveal_strlit("../");
    if m.len() > 0 && m[0] == '.' {
        let d = leading_dots(m);
        let rest = m.skip(d as int);
        assert(d >= 1);
        if rest.len() > 0 {
            if d == 1 {
                assert(("./"@ + rest).take(2) =~= "./"@);
            } else {
                lemma_repeat_prefix("../"@, (d - 1) as nat);
                let r = repeat("../"@, (d - 1) as nat);
                assert((r + rest).take(3) =~= r.take(3));
            }
        } else {
            assert(leading_dots(m) <= m.len()) by {
                lemma_leading_dots_len(m);
            }
            assert(is_bare_dots(m));
        }
    } else {
        if m.len() > 0 {
            assert(m.take(1) != "."@) by {
                assert(m.take(1)[0] == m[0]);
            }
        }
    }
}

proof fn lemma_leading_dots_len(s: Seq<char>)
    ensures
        leading_dots(s) <= s.len(),
    decreases s.len(),
{
    if s.len() > 0 && s[0] == '.' {
        lemma_leading_dots_len(s.skip(1));
    }
}

proof fn lemma_keys_from_imports(t: Seq<SyntaxNodeView>, imps: Seq<PyImportView>, n: int)
    requires
        0 <= n <= imps.len(),
    ensures
        forall|j: int|
            0 <= j < specifiers_upto(t, imps, n).len() ==> exists|x: int|
                0 <= x < n && absolute_key(imps[x].module) == Some(
                    (#[trigger] specifiers_upto(t, imps, n)[j]).0,
                ),
    decreases n,
{
    if n > 0 {
        lemma_keys_from_imports(t, imps, n - 1);
        let prev = specifiers_upto(t, imps, n - 1);
        let cur = specifiers_upto(t, imps, n);
        let imp = imps[n - 1];
        let spec = py_absolute_specifier(imp.module);
        lemma_table_keys(prev, spec, bare_import_attributes(t, imp.module));
        lemma_table_keys(prev, spec, seq![imp.symbol]);
        assert forall|j: int| 0 <= j < cur.len() implies exists|x: int|
            0 <= x < n && absolute_key(imps[x].module) == Some((#[trigger] cur[j]).0) by {
            if cur =~= prev {
                let x = choose|x: int|
                    0 <= x < n - 1 && absolute_key(imps[x].module) == Some(#[trigger] prev[j].0);
                assert(0 <= x < n);
            } else {
                if cur[j].0 == spec {
                    assert(absolute_key(imp.module) == Some(spec));
                    assert(imps[n - 1] == imp);
                } else {
                    assert(j < prev.len() && cur[j].0 == prev[j].0);
                    let x = choose|x: int|
                        0 <= x < n - 1 && absolute_key(imps[x].module) == Some(#[trigger] prev[j].0);
                    assert(0 <= x < n);
                }
            }
        }
    }
}

/// `k` is the path of a module that the tree imports, written without
/// leading dots: the module's dots turned into `/`.
pub open spec fn imported_module_path(t: Seq<SyntaxNodeView>, k: Seq<char>) -> bool {
    exists|x: int|
        0 <= x < py_imports(t).len() && !starts_with(#[trigger] py_imports(t)[x].module, "."@) && k
            == replace_seq(py_imports(t)[x].module, "."@, "/"@)
}

/// Each key of the absolute-import table is a module that the tree
/// imports, written without leading dots, with its dots turned into `/`
/// (`myapp.models` gives `myapp/models`).
pub proof fn law_import_keys_are_module_paths(t: Seq<SyntaxNodeView>)
    ensures
        forall|j: int|
            0 <= j < py_import_specifiers(t).len() ==> imported_module_path(
                t,
                (#[trigger] py_import_specifiers(t)[j]).0,
            ),
{
    let imps = py_imports(t);
    lemma_keys_from_imports(t, imps, imps.len() as int);
    assert forall|j: int| 0 <= j < py_import_specifiers(t).len() implies imported_module_path(
        t,
        (#[trigger] py_import_specifiers(t)[j]).0,
    ) by {
        let k = py_import_specifiers(t)[j].0;
        let x = choose|x: int| 0 <= x < imps.len() && absolute_key(imps[x].module) == Some(k);
        lemma_absolute_key(imps[x].module);
        assert(!starts_with(py_imports(t)[x].module, "."@) && k == replace_seq(
            py_imports(t)[x].module,
            "."@,
            "/"@,
        ));
    }
}


proof fn lemma_attributes_upto(t: Seq<SyntaxNodeView>, module: Seq<char>, n: int)
    requires
        n <= t.len(),
    ensures
        forall|k: int|
            0 <= k < attributes_upto(t, module, n).len() ==> exists|i: int|
                0 <= i < n && #[trigger] module_attribute(t, i, module) == Some(
                    #[trigger] attributes_upto(t, module, n)[k],
                ),
    decreases n,
{
    if n > 0 {
        lemma_attributes_upto(t, module, n - 1);
        let prev = attributes_upto(t, module, n - 1);
        let cur = attributes_upto(t, module, n);
        assert forall|k: int| 0 <= k < cur.len() implies exists|i: int|
            0 <= i < n && #[trigger] module_attribute(t, i, module) == Some(#[trigger] cur[k]) by {
            if k < prev.len() {
                assert(cur[k] == prev[k]);
                let i = choose|i: int|
                    0 <= i < n - 1 && #[trigger] module_attribute(t, i, module) == Some(prev[k]);
                assert(0 <= i < n);
            } else {
                assert(module_attribute(t, n - 1, module) == Some(cur[k]));
            }
        }
    }
}

/// The names accessed on a bare-imported module come strictly ascending
/// (so each once); none is empty, and each is the attribute of an access
/// `module.name` in the tree.
pub proof fn law_bare_import_attributes(t: Seq<SyntaxNodeView>, module: Seq<char>)
    ensures
        strictly_sorted(bare_import_attributes(t, module)),
        forall|k: int|
            0 <= k < bare_import_attributes(t, module).len() ==> {
                let a = #[trigger] bare_import_attributes(t, module)[k];
                a.len() > 0 && exists|i: int|
                    0 <= i < t.len() && module_attribute(t, i, module) == Some(a)
            },
{
    let all = attributes_upto(t, module, t.len() as int);
    let b = bare_import_attributes(t, module);
    lemma_sorted_elems(all);
    lemma_attributes_upto(t, module, t.len() as int);
    assert forall|k: int| 0 <= k < b.len() implies {
        let a = #[trigger] b[k];
        a.len() > 0 && exists|i: int| 0 <= i < t.len() && module_attribute(t, i, module) == Some(a)
    } by {
        assert(b.to_set().contains(b[k]));
        assert(all.to_set().contains(b[k]));
        let q = choose|q: int| 0 <= q < all.len() && all[q] == b[k];
        let i = choose|i: int| 0 <= i < t.len() && #[trigger] module_attribute(t, i, module) == Some(all[q]);
        assert(module_attribute(t, i, module) == Some(b[k]));
    }
}


/// The entry is a directory at depth `d` that holds `manage.py`.
pub open spec fn manage_dir_at(e: (Seq<char>, usize, bool, bool), d: usize) -> bool {
    e.1 == d && e.2 && e.3
}

proof fn lemma_first_manage_dir(es: Seq<(Seq<char>, usize, bool, bool)>, d: usize, n: int)
    requires
        n <= es.len(),
    ensures
        first_manage_dir(es, d, n) matches Some(p) ==> exists|i: int|
            0 <= i < n && #[trigger] manage_dir_at(es[i], d) && es[i].0 == p,
        first_manage_dir(es, d, n) is None ==> forall|i: int|
            0 <= i < n ==> !#[trigger] manage_dir_at(es[i], d),
    decreases n,
{
    if n > 0 {
        lemma_first_manage_dir(es, d, n - 1);
        if first_manage_dir(es, d, n - 1) is None && manage_dir_at(es[n - 1], d) {
            assert(manage_dir_at(es[n - 1], d) && es[n - 1].0 == es[n - 1].0);
        }
    }
}

/// Some entry at depth `d` is a directory at path `p` that holds
/// `manage.py`.
pub open spec fn manage_dir_found(es: Seq<(Seq<char>, usize, bool, bool)>, p: Seq<char>, d: usize) -> bool {
    exists|i: int| 0 <= i < es.len() && #[trigger] manage_dir_at(es[i], d) && es[i].0 == p
}

/// The Django project root is a directory one or two levels below the
/// scan root that holds `manage.py`, one level down when any directory
/// there holds it; there is none when the scan root holds `manage.py`
/// itself or no directory of those two levels does.
pub proof fn law_manage_py_root(root_has: bool, es: Seq<(Seq<char>, usize, bool, bool)>)
    ensures
        manage_py_root(root_has, es) matches Some(p) ==> !root_has && (manage_dir_found(es, p, 1)
            || manage_dir_found(es, p, 2)),
        (!root_has && exists|i: int| 0 <= i < es.len() && #[trigger] manage_dir_at(es[i], 1)) ==> (
        manage_py_root(root_has, es) matches Some(p) && manage_dir_found(es, p, 1)),
        manage_py_root(root_has, es) is None ==> root_has || forall|i: int|
            0 <= i < es.len() ==> !manage_dir_at(#[trigger] es[i], 1) && !manage_dir_at(es[i], 2),
{
    lemma_first_manage_dir(es, 1, es.len() as int);
    lemma_first_manage_dir(es, 2, es.len() as int);
    if !root_has {
        match first_manage_dir(es, 1, es.len() as int) {
            Some(p) => {
                assert(manage_dir_found(es, p, 1));
            },
            None => {
                match first_manage_dir(es, 2, es.len() as int) {
                    Some(p) => {
                        assert(manage_dir_found(es, p, 2));
                    },
                    None => {
                        assert forall|i: int| 0 <= i < es.len() implies !manage_dir_at(
                            #[trigger] es[i],
                            1,
                        ) && !manage_dir_at(es[i], 2) by {
                            assert(!manage_dir_at(es[i], 1));
                            assert(!manage_dir_at(es[i], 2));
                        }
                    },
                }
            },
        }
    }
}


/// The names that assertions use are the names inside the assertions, the
/// names their variables were assigned from, and the names those were
/// assigned from (two hops at most); with no assertion there are none.
pub proof fn law_assertion_names_two_hops(
    t: Seq<SyntaxNodeView>,
    ranges: Seq<(usize, usize)>,
    pairs: Seq<(Seq<char>, Seq<char>)>,
)
    ensures
        ranges.len() == 0 ==> assertion_referenced_names(t, ranges, pairs) == Set::<Seq<char>>::empty(),
        ranges.len() > 0 ==> {
            let m = assignment_table(pairs, pairs.len() as int);
            let a = assertion_identifiers(t, ranges);
            assertion_referenced_names(t, ranges, pairs) == a.union(assigned_targets(m, a)).union(
                assigned_targets(m, assigned_targets(m, a)),
            )
        },
{
    if ranges.len() > 0 {
        let m = assignment_table(pairs, pairs.len() as int);
        let a = assertion_identifiers(t, ranges);
        let ma = assigned_targets(m, a);
        let lhs = assigned_targets(m, a.union(ma));
        let rhs = ma.union(assigned_targets(m, ma));
        assert forall|x: Seq<char>| lhs.contains(x) <==> rhs.contains(x) by {
            if lhs.contains(x) {
                let k = choose|k: int| 0 <= k < m.len() && a.union(ma).contains(m[k].0) && m[k].1.contains(x);
                if a.contains(m[k].0) {
                    assert(ma.contains(x));
                } else {
                    assert(assigned_targets(m, ma).contains(x));
                }
            }
            if ma.contains(x) {
                let k = choose|k: int| 0 <= k < m.len() && a.contains(m[k].0) && m[k].1.contains(x);
                assert(a.union(ma).contains(m[k].0));
                assert(lhs.contains(x));
            }
            if assigned_targets(m, ma).contains(x) {
                let k = choose|k: int| 0 <= k < m.len() && ma.contains(m[k].0) && m[k].1.contains(x);
                assert(a.union(ma).contains(m[k].0));
                assert(lhs.contains(x));
            }
        }
        assert(lhs =~= rhs);
        assert(expand_once(m, expand_once(m, a)) =~= a.union(ma).union(assigned_targets(m, ma)));
    }
}


proof fn lemma_py_stem(d: Seq<char>, x: Seq<char>)
    requires
        x.len() > 0,
        !x.contains('/'),
    ensures
        file_stem(d + seq!['/'] + (x + ".py"@)) == Some(x),
        file_name(d + seq!['/'] + (x + ".py"@)) == Some(x + ".py"@),
{
    reveal_strlit(".py");
    let n = x + ".py"@;
    assert(!n.contains('/')) by {
        if n.contains('/') {
            let i = choose|i: int| 0 <= i < n.len() && n[i] == '/';
            if i < x.len() {
                assert(x[i] == '/');
                assert(x.contains('/'));
            }
        }
    }
    assert(n != seq!['.'] && n != seq!['.', '.']) by {
        assert(n.len() >= 4);
    }
    crate::paths::lemma_file_name_join(d, n);
    assert(rfind_char(n, '.') == Some(x.len() as int)) by {
        assert(n.last() == 'y');
        assert(n.drop_last().last() == 'p');
        assert(n.drop_last().drop_last().last() == '.');
        assert(n.drop_last().drop_last().len() == x.len() + 1);
        let n1 = n.drop_last();
        let n2 = n1.drop_last();
        assert(rfind_char(n2, '.') == Some(x.len() as int));
        assert(rfind_char(n1, '.') == rfind_char(n2, '.'));
        assert(rfind_char(n, '.') == rfind_char(n1, '.'));
    }
    assert(n.take(x.len() as int) =~= x);
}

/// Python files that are never subjects under test, whatever the caller
/// knows: anything inside a `tests` or `test` directory, `__version__.py`,
/// `types.py`, `mock.py` and `mock_*.py`; and, unless the caller knows the
/// file to be production code, `conftest.py`, `constants.py`, `setup.py` and
/// `__init__.py`.
pub proof fn law_python_helper_files(d: Seq<char>, n: Seq<char>, x: Seq<char>, known: bool)
    requires
        !n.contains('/'),
        x.len() > 0,
        !x.contains('/'),
    ensures
        py_is_non_sut_helper(d + "/tests"@ + seq!['/'] + n, known),
        py_is_non_sut_helper(d + "/test"@ + seq!['/'] + n, known),
        py_is_non_sut_helper(d + seq!['/'] + "__version__.py"@, known),
        py_is_non_sut_helper(d + seq!['/'] + "types.py"@, known),
        py_is_non_sut_helper(d + seq!['/'] + "mock.py"@, known),
        py_is_non_sut_helper(d + seq!['/'] + ("mock_"@ + x + ".py"@), known),
        py_is_non_sut_helper(d + seq!['/'] + "conftest.py"@, false),
        py_is_non_sut_helper(d + seq!['/'] + "constants.py"@, false),
        py_is_non_sut_helper(d + seq!['/'] + "setup.py"@, false),
        py_is_non_sut_helper(d + seq!['/'] + "__init__.py"@, false),
{
    reveal_strlit("/tests");
    reveal_strlit("/test");
    reveal_strlit("tests");
    reveal_strlit("test");
    reveal_strlit("__version__.py");
    reveal_strlit("__version__");
    reveal_strlit("types.py");
    reveal_strlit("types");
    reveal_strlit("mock.py");
    reveal_strlit("mock");
    reveal_strlit("mock_");
    reveal_strlit(".py");
    reveal_strlit("conftest.py");
    reveal_strlit("constants.py");
    reveal_strlit("setup.py");
    reveal_strlit("__init__.py");
    // inside a tests/test directory
    let dt = d + "/tests"@;
    assert(dt =~= d + seq!['/'] + "tests"@);
    crate::paths::lemma_split_join(d, "tests"@);
    crate::paths::lemma_split_join(dt, n);
    let segs = split_char(dt + seq!['/'] + n, '/');
    let k = split_char(d, '/').len() as int;
    assert(segs[k] == "tests"@);
    assert(in_test_dir(dt + seq!['/'] + n));
    let dt2 = d + "/test"@;
    assert(dt2 =~= d + seq!['/'] + "test"@);
    crate::paths::lemma_split_join(d, "test"@);
    crate::paths::lemma_split_join(dt2, n);
    let segs2 = split_char(dt2 + seq!['/'] + n, '/');
    assert(segs2[k] == "test"@);
    assert(in_test_dir(dt2 + seq!['/'] + n));
    // stems
    assert("__version__.py"@ =~= "__version__"@ + ".py"@);
    lemma_py_stem(d, "__version__"@);
    assert("types.py"@ =~= "types"@ + ".py"@);
    lemma_py_stem(d, "types"@);
    assert(trim_char("types"@, '_') == "types"@) by {
        assert(trim_start_by("types"@, crate::text::is_char('_')) == "types"@);
        assert(crate::text::trim_end_by("types"@, crate::text::is_char('_')) == "types"@);
    }
    assert("mock.py"@ =~= "mock"@ + ".py"@);
    lemma_py_stem(d, "mock"@);
    let mx = "mock_"@ + x;
    assert(!mx.contains('/')) by {
        if mx.contains('/') {
            let i = choose|i: int| 0 <= i < mx.len() && mx[i] == '/';
            if i >= 5 {
                assert(x[i - 5] == '/');
                assert(x.contains('/'));
            }
        }
    }
    lemma_py_stem(d, mx);
    assert(mx.take(5) =~= "mock_"@);
    // well-known support files
    assert forall|f: Seq<char>|
        f == "conftest.py"@ || f == "constants.py"@ || f == "setup.py"@ || f == "__init__.py"@ implies
        file_name(d + seq!['/'] + f) == Some(f) by {
        assert(!f.contains('/')) by {
            if f.contains('/') {
                let i = choose|i: int| 0 <= i < f.len() && f[i] == '/';
            }
        }
        crate::paths::lemma_file_name_join(d, f);
    }
}

} // verus!
