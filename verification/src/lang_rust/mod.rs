//! Rust test and production file analysis.

pub mod observe;
pub mod functions;

use vstd::prelude::*;
use crate::paths::{file_name, file_name_range};
use crate::observe::{ProductionFunction, functions_view, BarrelReExport, reexports_view, ImportMapping, mappings_view, table_mappings, table_to_mappings, table_view};
use crate::syntax::rust_syntax;
use observe::{imports_ok, rust_import_table};
use crate::text::{char_is_uppercase, chars_of, eq_lit_range, opt_view, strip_prefix, string_of};

verus! {

/// The analyzer for Rust sources.
pub struct RustExtractor;

impl RustExtractor {
    /// A new Rust analyzer.
    pub fn new() -> (r: Self)
        ensures
            r == RustExtractor,
    {
        RustExtractor
    }

    /// The file extensions of Rust sources.
    pub fn source_extensions(&self) -> (r: Vec<String>)
        ensures
            r@.len() == 1,
            r@[0]@ == "rs"@,
    {
        let mut v = Vec::new();
        v.push(String::from_str("rs"));
        v
    }

    /// The file names of module index (barrel) files.
    pub fn index_file_names(&self) -> (r: Vec<String>)
        ensures
            r@.len() == 2,
            r@[0]@ == "mod.rs"@,
            r@[1]@ == "lib.rs"@,
    {
        let mut v = Vec::new();
        v.push(String::from_str("mod.rs"));
        v.push(String::from_str("lib.rs"));
        v
    }

    /// Whether `path` names a module index (`mod.rs` or `lib.rs`).
    pub fn is_barrel_file(&self, path: &str) -> (r: bool)
        ensures
            r == (file_name(path@) == Some("mod.rs"@) || file_name(path@) == Some("lib.rs"@)),
    {
        let v = chars_of(path);
        match file_name_range(v.as_slice()) {
            Some((a, b)) => eq_lit_range(v.as_slice(), a, b, "mod.rs") || eq_lit_range(
                v.as_slice(),
                a,
                b,
                "lib.rs",
            ),
            None => false,
        }
    }

    /// See [`observe::production_stem`].
    pub fn production_stem<'a>(&self, path: &'a str) -> (r: Option<&'a str>)
        ensures
            opt_view(r) == observe::rs_production_stem(path@),
    {
        observe::production_stem(path)
    }

    /// See [`observe::test_stem`].
    pub fn test_stem<'a>(&self, path: &'a str) -> (r: Option<&'a str>)
        ensures
            opt_view(r) == observe::rs_test_stem(path@),
    {
        observe::test_stem(path)
    }

    /// See [`observe::is_non_sut_helper`].
    pub fn is_non_sut_helper(&self, file_path: &str, is_known_production: bool) -> (r: bool)
        ensures
            r == observe::rs_is_non_sut_helper(file_path@),
    {
        observe::is_non_sut_helper(file_path, is_known_production)
    }
}

impl RustExtractor {
    /// The `crate::` import specifiers of `source` with the symbols imported
    /// from each.
    pub fn extract_all_import_specifiers(&self, source: &str) -> (r: Vec<(String, Vec<String>)>)
        ensures
            match rust_syntax(source@) {
                Some(t) => if imports_ok(t, None) {
                    table_view(r@) == rust_import_table(t, None)
                } else {
                    r@.len() == 0
                },
                None => r@.len() == 0,
            },
    {
        observe::extract_import_specifiers_with_crate_name(source, None)
    }

    /// One import mapping per imported symbol of `source`, all on line 1.
    pub fn extract_imports(&self, source: &str, file_path: &str) -> (r: Vec<ImportMapping>)
        ensures
            match rust_syntax(source@) {
                Some(t) => if imports_ok(t, None) {
                    mappings_view(r@) == table_mappings(
                        rust_import_table(t, None),
                        file_path@,
                        1,
                        rust_import_table(t, None).len() as int,
                    )
                } else {
                    r@.len() == 0
                },
                None => r@.len() == 0,
            },
    {
        let all = self.extract_all_import_specifiers(source);
        let r = table_to_mappings(&all, file_path, 1);
        assert(table_view(all@).len() == all@.len());
        assert(mappings_view(r@).len() == r@.len());
        r
    }
}

impl RustExtractor {
    /// The re-exports of a barrel file (`mod.rs`, `lib.rs`): `pub mod`,
    /// `pub use` and the same inside top-level macro calls.
    pub fn extract_barrel_re_exports(&self, source: &str, file_path: &str) -> (r: Vec<
        BarrelReExport,
    >)
        ensures
            !(file_name(file_path@) == Some("mod.rs"@) || file_name(file_path@) == Some(
                "lib.rs"@,
            )) ==> r@.len() == 0,
            (file_name(file_path@) == Some("mod.rs"@) || file_name(file_path@) == Some(
                "lib.rs"@,
            )) ==> match rust_syntax(source@) {
                Some(t) => if observe::barrel_ok(t) {
                    reexports_view(r@) == observe::barrel_reexports(t)
                } else {
                    r@.len() == 0
                },
                None => r@.len() == 0,
            },
    {
        let b = self.is_barrel_file(file_path);
        observe::barrel_re_exports(source, b)
    }
}

impl RustExtractor {
    /// The functions and `impl` methods of `source` outside its
    /// `#[cfg(test)]` modules, each name and type once; a method records its
    /// `impl` type, and a function is exported when it has a visibility
    /// modifier.
    pub fn extract_production_functions(&self, source: &str, file_path: &str) -> (r: Vec<
        ProductionFunction,
    >)
        ensures
            match rust_syntax(source@) {
                Some(t) => functions_view(r@) == observe::rs_production_functions(t, file_path@),
                None => r@.len() == 0,
            },
    {
        match crate::syntax::parse_rust(source) {
            Some(t) => observe::production_functions_from_syntax(&t, file_path),
            None => Vec::new(),
        }
    }
}

impl Default for RustExtractor {
    fn default() -> (r: Self)
        ensures
            r == RustExtractor,
    {
        RustExtractor::new()
    }
}

/// The type a Rust mock variable stands for: `mock_x` names `x`, and the
/// camel-case `mockX` names `X` when `X` starts with an upper-case letter.
pub open spec fn rs_mock_class_name(var_name: Seq<char>) -> Seq<char> {
    match strip_prefix(var_name, "mock_"@) {
        Some(rest) if rest.len() > 0 => rest,
        _ => match strip_prefix(var_name, "mock"@) {
            Some(rest) if rest.len() > 0 && char_is_uppercase(rest[0]) => rest,
            _ => var_name,
        },
    }
}

/// Derive the mocked type name from a mock variable name
/// (`mock_service` -> `service`, `mockService` -> `Service`).
pub fn extract_mock_class_name(var_name: &str) -> (r: String)
    ensures
        r@ == rs_mock_class_name(var_name@),
{
    let v = chars_of(var_name);
    let n = v.len();
    assert(v@.subrange(0, n as int) == v@);
    if let Some(k) = crate::text::strip_prefix_range(v.as_slice(), 0, n, "mock_") {
        if k < n {
            return string_of(vstd::slice::slice_subrange(v.as_slice(), k, n));
        }
    }
    if let Some(k) = crate::text::strip_prefix_range(v.as_slice(), 0, n, "mock") {
        if k < n && crate::text::is_uppercase(v[k]) {
            assert(v@.subrange(k as int, n as int)[0] == v@[k as int]);
            return string_of(vstd::slice::slice_subrange(v.as_slice(), k, n));
        }
    }
    string_of(v.as_slice())
}

/// The mocked type's name is the variable's name without its `mock_` or
/// `mock` prefix, or the whole name.
pub proof fn law_mock_class_name_is_suffix(var_name: Seq<char>)
    ensures
        ({
            let r = rs_mock_class_name(var_name);
            r == var_name || "mock_"@ + r == var_name || "mock"@ + r == var_name
        }),
{
    if strip_prefix(var_name, "mock_"@) is Some {
        crate::text::lemma_strip_prefix_concat(var_name, "mock_"@);
    }
    if strip_prefix(var_name, "mock"@) is Some {
        crate::text::lemma_strip_prefix_concat(var_name, "mock"@);
    }
}

} // verus!
