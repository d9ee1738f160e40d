//! Python test and production file analysis.

pub mod observe;
pub mod routes;
pub mod functions;

use vstd::prelude::*;
use crate::paths::{file_name, file_name_range};
use crate::text::{chars_of, eq_lit_range, opt_view, strip_prefix, string_of};
use crate::observe::{ProductionFunction, functions_view, 
    BarrelReExport, ImportMapping, keys_unique, mappings_view, reexports_view, table_view,
};
use crate::syntax::{parse_python, python_syntax};

verus! {

/// The analyzer for Python sources.
pub struct PythonExtractor;

impl PythonExtractor {
    /// A new Python analyzer.
    pub fn new() -> (r: Self)
        ensures
            r == PythonExtractor,
    {
        PythonExtractor
    }

    /// The file extensions of Python sources.
    pub fn source_extensions(&self) -> (r: Vec<String>)
        ensures
            r@.len() == 1,
            r@[0]@ == "py"@,
    {
        let mut v = Vec::new();
        v.push(String::from_str("py"));
        v
    }

    /// The file names of package index (barrel) files.
    pub fn index_file_names(&self) -> (r: Vec<String>)
        ensures
            r@.len() == 1,
            r@[0]@ == "__init__.py"@,
    {
        let mut v = Vec::new();
        v.push(String::from_str("__init__.py"));
        v
    }

    /// Whether `path` names a package index (`__init__.py`).
    pub fn is_barrel_file(&self, path: &str) -> (r: bool)
        ensures
            r == (file_name(path@) == Some("__init__.py"@)),
    {
        let v = chars_of(path);
        match file_name_range(v.as_slice()) {
            Some((a, b)) => eq_lit_range(v.as_slice(), a, b, "__init__.py"),
            None => false,
        }
    }

    /// See [`observe::production_stem`].
    pub fn production_stem<'a>(&self, path: &'a str) -> (r: Option<&'a str>)
        ensures
            opt_view(r) == observe::py_production_stem(path@),
    {
        observe::production_stem(path)
    }

    /// See [`observe::test_stem`].
    pub fn test_stem<'a>(&self, path: &'a str) -> (r: Option<&'a str>)
        ensures
            opt_view(r) == observe::py_test_stem(path@),
    {
        observe::test_stem(path)
    }

    /// See [`observe::is_non_sut_helper`].
    pub fn is_non_sut_helper(&self, file_path: &str, is_known_production: bool) -> (r: bool)
        ensures
            r == observe::py_is_non_sut_helper(file_path@, is_known_production),
    {
        observe::is_non_sut_helper(file_path, is_known_production)
    }
}

impl PythonExtractor {
    /// Every absolute module that `source` imports, with the symbols
    /// imported from it: `from m.n import s` gives `("m/n", [s, ..])`, a
    /// bare `import m` gives `m` with the names accessed on it (`m.f()`),
    /// sorted.  Relative imports are left to [`Self::extract_imports`].
    pub fn extract_all_import_specifiers(&self, source: &str) -> (r: Vec<(String, Vec<String>)>)
        ensures
            match python_syntax(source@) {
                Some(t) => table_view(r@) == observe::py_import_specifiers(t),
                None => r@.len() == 0,
            },
            keys_unique(table_view(r@)),
    {
        match parse_python(source) {
            Some(t) => observe::import_specifiers_from_syntax(&t),
            None => Vec::new(),
        }
    }

    /// One mapping per symbol of the relative imports of `source`
    /// (`from .models import User` gives `./models`; `from . import views`
    /// gives `./views`), grouped by specifier.
    pub fn extract_imports(&self, source: &str, file_path: &str) -> (r: Vec<ImportMapping>)
        ensures
            match python_syntax(source@) {
                Some(t) => mappings_view(r@) == observe::py_relative_mappings(t, file_path@),
                None => r@.len() == 0,
            },
    {
        match parse_python(source) {
            Some(t) => observe::relative_mappings_from_syntax(&t, file_path),
            None => Vec::new(),
        }
    }

    /// The relative re-exports of a package index: `from .module import Foo`
    /// and `from .module import *`, one entry per specifier.
    pub fn extract_barrel_re_exports(&self, source: &str, file_path: &str) -> (r: Vec<
        BarrelReExport,
    >)
        ensures
            match python_syntax(source@) {
                Some(t) => reexports_view(r@) == observe::py_reexports(t),
                None => r@.len() == 0,
            },
    {
        match parse_python(source) {
            Some(t) => observe::reexports_from_syntax(&t),
            None => Vec::new(),
        }
    }
}

impl PythonExtractor {
    /// The module-level functions and class methods of `source`, decorated
    /// or not, each name and class once (a method records its class).
    pub fn extract_production_functions(&self, source: &str, file_path: &str) -> (r: Vec<
        ProductionFunction,
    >)
        ensures
            match python_syntax(source@) {
                Some(t) => functions_view(r@) == observe::py_production_functions(t, file_path@),
                None => r@.len() == 0,
            },
    {
        match crate::syntax::parse_python(source) {
            Some(t) => observe::production_functions_from_syntax(&t, file_path),
            None => Vec::new(),
        }
    }
}

impl Default for PythonExtractor {
    fn default() -> (r: Self)
        ensures
            r == PythonExtractor,
    {
        PythonExtractor::new()
    }
}

/// The class a Python mock variable stands for: `mock_X` names `X`.
pub open spec fn py_mock_class_name(var_name: Seq<char>) -> Seq<char> {
    match strip_prefix(var_name, "mock_"@) {
        Some(rest) => if rest.len() > 0 {
            rest
        } else {
            var_name
        },
        None => var_name,
    }
}

/// Derive the mocked class name from a mock variable name
/// (`mock_db` -> `db`; other names are kept).
pub fn extract_mock_class_name(var_name: &str) -> (r: String)
    ensures
        r@ == py_mock_class_name(var_name@),
{
    let v = chars_of(var_name);
    if let Some(k) = crate::text::strip_prefix_range(v.as_slice(), 0, v.len(), "mock_") {
        assert(v@.subrange(0, v@.len() as int) == v@);
        if k < v.len() {
            return string_of(vstd::slice::slice_subrange(v.as_slice(), k, v.len()));
        }
    }
    assert(v@.subrange(0, v@.len() as int) == v@);
    string_of(v.as_slice())
}

/// The mocked class's name is the variable's name without its `mock_`
/// prefix, or the whole name.
pub proof fn law_mock_class_name_is_suffix(var_name: Seq<char>)
    ensures
        ({
            let r = py_mock_class_name(var_name);
            r == var_name || "mock_"@ + r == var_name
        }),
{
    if strip_prefix(var_name, "mock_"@) is Some {
        crate::text::lemma_strip_prefix_concat(var_name, "mock_"@);
    }
}

} // verus!
