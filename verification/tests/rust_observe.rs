use exspec_lang::lang_rust::observe::{detect_inline_tests, find_cfg_test_ranges, extract_import_specifiers_with_crate_name};
use exspec_lang::lang_rust::RustExtractor;

#[test]
fn rs_stem_01_test_prefix() {
    // Given: a file named tests/test_foo.rs
    // When: test_stem is called
    // Then: returns Some("foo")
    let extractor = RustExtractor::new();
    assert_eq!(extractor.test_stem("tests/test_foo.rs"), Some("foo"));
}

#[test]
fn rs_stem_02_test_suffix() {
    // Given: a file named tests/foo_test.rs
    // When: test_stem is called
    // Then: returns Some("foo")
    let extractor = RustExtractor::new();
    assert_eq!(extractor.test_stem("tests/foo_test.rs"), Some("foo"));
}

#[test]
fn rs_stem_03_tests_dir_integration() {
    // Given: a file in tests/ directory without test_ prefix or _test suffix
    // When: test_stem is called
    // Then: returns Some("integration") because tests/ directory files are integration tests
    let extractor = RustExtractor::new();
    assert_eq!(
        extractor.test_stem("tests/integration.rs"),
        Some("integration")
    );
}

#[test]
fn rs_stem_04_production_file_no_test_stem() {
    // Given: a production file in src/
    // When: test_stem is called
    // Then: returns None
    let extractor = RustExtractor::new();
    assert_eq!(extractor.test_stem("src/user.rs"), None);
}

#[test]
fn rs_stem_05_production_stem_regular() {
    // Given: a regular production file
    // When: production_stem is called
    // Then: returns Some("user")
    let extractor = RustExtractor::new();
    assert_eq!(extractor.production_stem("src/user.rs"), Some("user"));
}

#[test]
fn rs_stem_06_production_stem_lib() {
    // Given: lib.rs (barrel file)
    // When: production_stem is called
    // Then: returns None
    let extractor = RustExtractor::new();
    assert_eq!(extractor.production_stem("src/lib.rs"), None);
}

#[test]
fn rs_stem_07_production_stem_mod() {
    // Given: mod.rs (barrel file)
    // When: production_stem is called
    // Then: returns None
    let extractor = RustExtractor::new();
    assert_eq!(extractor.production_stem("src/mod.rs"), None);
}

#[test]
fn rs_stem_08_production_stem_main() {
    // Given: main.rs (entry point)
    // When: production_stem is called
    // Then: returns None
    let extractor = RustExtractor::new();
    assert_eq!(extractor.production_stem("src/main.rs"), None);
}

#[test]
fn rs_stem_09_production_stem_test_file() {
    // Given: a test file
    // When: production_stem is called
    // Then: returns None
    let extractor = RustExtractor::new();
    assert_eq!(extractor.production_stem("tests/test_foo.rs"), None);
}

#[test]
fn rs_helper_01_build_rs() {
    // Given: build.rs
    // When: is_non_sut_helper is called
    // Then: returns true
    let extractor = RustExtractor::new();
    assert!(extractor.is_non_sut_helper("build.rs", false));
}

#[test]
fn rs_helper_02_tests_common() {
    // Given: tests/common/mod.rs (test helper module)
    // When: is_non_sut_helper is called
    // Then: returns true
    let extractor = RustExtractor::new();
    assert!(extractor.is_non_sut_helper("tests/common/mod.rs", false));
}

#[test]
fn rs_helper_03_regular_production_file() {
    // Given: a regular production file
    // When: is_non_sut_helper is called
    // Then: returns false
    let extractor = RustExtractor::new();
    assert!(!extractor.is_non_sut_helper("src/user.rs", false));
}

#[test]
fn rs_helper_04_benches() {
    // Given: a benchmark file
    // When: is_non_sut_helper is called
    // Then: returns true
    let extractor = RustExtractor::new();
    assert!(extractor.is_non_sut_helper("benches/bench.rs", false));
}

#[test]
fn rs_imp_01_simple_crate_import() {
    // Given: source with a simple crate import
    let source = "use crate::user::User;\n";

    // When: extract_all_import_specifiers is called
    let extractor = RustExtractor::new();
    let result = extractor.extract_all_import_specifiers(source);

    // Then: ("user", ["User"])
    let entry = result.iter().find(|(spec, _)| spec == "user");
    assert!(entry.is_some(), "user not found in {:?}", result);
    let (_, symbols) = entry.unwrap();
    assert!(symbols.contains(&"User".to_string()));
}

#[test]
fn rs_imp_02_nested_crate_import() {
    // Given: source with a nested crate import
    let source = "use crate::models::user::User;\n";

    // When: extract_all_import_specifiers is called
    let extractor = RustExtractor::new();
    let result = extractor.extract_all_import_specifiers(source);

    // Then: ("models/user", ["User"])
    let entry = result.iter().find(|(spec, _)| spec == "models/user");
    assert!(entry.is_some(), "models/user not found in {:?}", result);
    let (_, symbols) = entry.unwrap();
    assert!(symbols.contains(&"User".to_string()));
}

#[test]
fn rs_imp_03_use_list() {
    // Given: source with a use list
    let source = "use crate::user::{User, Admin};\n";

    // When: extract_all_import_specifiers is called
    let extractor = RustExtractor::new();
    let result = extractor.extract_all_import_specifiers(source);

    // Then: ("user", ["User", "Admin"])
    let entry = result.iter().find(|(spec, _)| spec == "user");
    assert!(entry.is_some(), "user not found in {:?}", result);
    let (_, symbols) = entry.unwrap();
    assert!(
        symbols.contains(&"User".to_string()),
        "User not in {:?}",
        symbols
    );
    assert!(
        symbols.contains(&"Admin".to_string()),
        "Admin not in {:?}",
        symbols
    );
}

#[test]
fn rs_imp_04_external_crate_skipped() {
    // Given: source with an external crate import
    let source = "use std::collections::HashMap;\n";

    // When: extract_all_import_specifiers is called
    let extractor = RustExtractor::new();
    let result = extractor.extract_all_import_specifiers(source);

    // Then: not included (only crate:: imports are tracked)
    assert!(
        result.is_empty(),
        "external imports should be skipped: {:?}",
        result
    );
}

#[test]
fn rs_barrel_01_mod_rs() {
    // Given: mod.rs
    // When: is_barrel_file is called
    // Then: returns true
    let extractor = RustExtractor::new();
    assert!(extractor.is_barrel_file("src/models/mod.rs"));
}

#[test]
fn rs_barrel_02_lib_rs() {
    // Given: lib.rs
    // When: is_barrel_file is called
    // Then: returns true
    let extractor = RustExtractor::new();
    assert!(extractor.is_barrel_file("src/lib.rs"));
}

#[test]
fn rs_imp_05_crate_name_simple_import() {
    // Given: source = "use my_crate::user::User;\n", crate_name = Some("my_crate")
    let source = "use my_crate::user::User;\n";

    // When: extract_import_specifiers_with_crate_name(source, Some("my_crate"))
    let result = extract_import_specifiers_with_crate_name(source, Some("my_crate"));

    // Then: [("user", ["User"])]
    let entry = result.iter().find(|(spec, _)| spec == "user");
    assert!(entry.is_some(), "user not found in {:?}", result);
    let (_, symbols) = entry.unwrap();
    assert!(
        symbols.contains(&"User".to_string()),
        "User not in {:?}",
        symbols
    );
}

#[test]
fn rs_imp_06_crate_name_use_list() {
    // Given: source = "use my_crate::user::{User, Admin};\n", crate_name = Some("my_crate")
    let source = "use my_crate::user::{User, Admin};\n";

    // When: extract_import_specifiers_with_crate_name(source, Some("my_crate"))
    let result = extract_import_specifiers_with_crate_name(source, Some("my_crate"));

    // Then: [("user", ["User", "Admin"])]
    let entry = result.iter().find(|(spec, _)| spec == "user");
    assert!(entry.is_some(), "user not found in {:?}", result);
    let (_, symbols) = entry.unwrap();
    assert!(
        symbols.contains(&"User".to_string()),
        "User not in {:?}",
        symbols
    );
    assert!(
        symbols.contains(&"Admin".to_string()),
        "Admin not in {:?}",
        symbols
    );
}

#[test]
fn rs_imp_07_crate_name_none_skips() {
    // Given: source = "use my_crate::user::User;\n", crate_name = None
    let source = "use my_crate::user::User;\n";

    // When: extract_import_specifiers_with_crate_name(source, None)
    let result = extract_import_specifiers_with_crate_name(source, None);

    // Then: [] (空)
    assert!(
        result.is_empty(),
        "Expected empty result when crate_name=None, got: {:?}",
        result
    );
}

#[test]
fn rs_imp_08_mixed_crate_and_crate_name() {
    // Given: source に `use crate::service::Service;` と `use my_crate::user::User;` の両方
    // crate_name = Some("my_crate")
    let source = "use crate::service::Service;\nuse my_crate::user::User;\n";

    // When: extract_import_specifiers_with_crate_name(source, Some("my_crate"))
    let result = extract_import_specifiers_with_crate_name(source, Some("my_crate"));

    // Then: [("service", ["Service"]), ("user", ["User"])] の両方が検出される
    let service_entry = result.iter().find(|(spec, _)| spec == "service");
    assert!(service_entry.is_some(), "service not found in {:?}", result);
    let (_, service_symbols) = service_entry.unwrap();
    assert!(
        service_symbols.contains(&"Service".to_string()),
        "Service not in {:?}",
        service_symbols
    );

    let user_entry = result.iter().find(|(spec, _)| spec == "user");
    assert!(user_entry.is_some(), "user not found in {:?}", result);
    let (_, user_symbols) = user_entry.unwrap();
    assert!(
        user_symbols.contains(&"User".to_string()),
        "User not in {:?}",
        user_symbols
    );
}

#[test]
fn rs_imp_09_single_segment_module_import() {
    // Given: source with a single-segment module import after crate:: prefix
    let source = "use crate::fs;\n";

    // When: extract_all_import_specifiers is called
    let extractor = RustExtractor::new();
    let result = extractor.extract_all_import_specifiers(source);

    // Then: result contains ("fs", []) — single-segment module import with empty symbols
    let entry = result.iter().find(|(spec, _)| spec == "fs");
    assert!(
        entry.is_some(),
        "fs not found in {:?} (single-segment module import should be registered)",
        result
    );
    let (_, symbols) = entry.unwrap();
    assert!(
        symbols.is_empty(),
        "Expected empty symbols for module import, got: {:?}",
        symbols
    );
}

#[test]
fn rs_imp_10_single_segment_with_crate_name() {
    // Given: source `use my_crate::util;\n`, crate_name = "my_crate"
    let source = "use my_crate::util;\n";

    // When: extract_import_specifiers_with_crate_name called with crate_name = "my_crate"
    let result = extract_import_specifiers_with_crate_name(source, Some("my_crate"));

    // Then: result contains ("util", []) — single-segment module import with empty symbols
    let entry = result.iter().find(|(spec, _)| spec == "util");
    assert!(
        entry.is_some(),
        "util not found in {:?} (single-segment with crate_name should be registered)",
        result
    );
    let (_, symbols) = entry.unwrap();
    assert!(
        symbols.is_empty(),
        "Expected empty symbols for module import, got: {:?}",
        symbols
    );
}

#[test]
fn rs_barrel_03_pub_mod() {
    // Given: mod.rs with pub mod user;
    let source = "pub mod user;\n";

    // When: extract_barrel_re_exports is called
    let extractor = RustExtractor::new();
    let result = extractor.extract_barrel_re_exports(source, "src/mod.rs");

    // Then: from_specifier="./user", wildcard=true
    let entry = result.iter().find(|e| e.from_specifier == "./user");
    assert!(entry.is_some(), "./user not found in {:?}", result);
    assert!(entry.unwrap().wildcard);
}

#[test]
fn rs_barrel_04_pub_use_wildcard() {
    // Given: mod.rs with pub use user::*;
    let source = "pub use user::*;\n";

    // When: extract_barrel_re_exports is called
    let extractor = RustExtractor::new();
    let result = extractor.extract_barrel_re_exports(source, "src/mod.rs");

    // Then: from_specifier="./user", wildcard=true
    let entry = result.iter().find(|e| e.from_specifier == "./user");
    assert!(entry.is_some(), "./user not found in {:?}", result);
    assert!(entry.unwrap().wildcard);
}

#[test]
    fn rs_barrel_cfg_macro_pub_mod() {
        // Given: barrel mod.rs with cfg_feat! { pub mod sub; }
        let source = r#"
cfg_feat! {
    pub mod sub;
}
"#;

    // When: extract_barrel_re_exports is called
    let ext = RustExtractor::new();
    let result = ext.extract_barrel_re_exports(source, "src/mod.rs");

    // Then: result contains BarrelReExport for "./sub" with wildcard=true
    assert!(
        !result.is_empty(),
        "Expected non-empty result, got: {:?}",
        result
    );
    assert!(
        result
            .iter()
            .any(|r| r.from_specifier == "./sub" && r.wildcard),
        "./sub with wildcard=true not found in {:?}",
        result
    );
}

#[test]
    fn rs_barrel_cfg_macro_pub_use_braces() {
        // Given: barrel mod.rs with cfg_feat! { pub use util::{Symbol}; }
        let source = r#"
cfg_feat! {
    pub use util::{Symbol};
}
"#;

    // When: extract_barrel_re_exports is called
    let ext = RustExtractor::new();
    let result = ext.extract_barrel_re_exports(source, "src/mod.rs");

    // Then: result contains BarrelReExport for "./util" with symbols=["Symbol"]
    assert!(
        !result.is_empty(),
        "Expected non-empty result, got: {:?}",
        result
    );
    assert!(
        result.iter().any(|r| r.from_specifier == "./util"
            && !r.wildcard
            && r.symbols.contains(&"Symbol".to_string())),
        "./util with symbols=[\"Symbol\"] not found in {:?}",
        result
    );
}

#[test]
fn rs_barrel_top_level_regression() {
    // Given: barrel mod.rs with top-level pub mod foo; (no macro wrapper)
    let source = "pub mod foo;\n";

    // When: extract_barrel_re_exports is called
    let ext = RustExtractor::new();
    let result = ext.extract_barrel_re_exports(source, "src/mod.rs");

    // Then: foo is detected (regression - top-level pub mod must still work)
    let entry = result.iter().find(|e| e.from_specifier == "./foo");
    assert!(
        entry.is_some(),
        "./foo not found in {:?} (regression: top-level pub mod broken)",
        result
    );
    assert!(entry.unwrap().wildcard);
}

#[test]
fn rs_barrel_self_01_strips_self_from_wildcard() {
    // Given: barrel source with `pub use self::sub::*;`
    let source = "pub use self::sub::*;\n";

    // When: extract_barrel_re_exports is called on mod.rs
    let extractor = RustExtractor::new();
    let result = extractor.extract_barrel_re_exports(source, "src/mod.rs");

    // Then: from_specifier = "./sub" (not "./self/sub"), wildcard = true
    let entry = result.iter().find(|e| e.from_specifier == "./sub");
    assert!(
        entry.is_some(),
        "./sub not found in {:?} (self:: prefix should be stripped from wildcard)",
        result
    );
    assert!(
        entry.unwrap().wildcard,
        "Expected wildcard=true for pub use self::sub::*"
    );
}

#[test]
fn rs_barrel_self_02_strips_self_from_symbol() {
    // Given: barrel source with `pub use self::file::File;`
    let source = "pub use self::file::File;\n";

    // When: extract_barrel_re_exports is called on mod.rs
    let extractor = RustExtractor::new();
    let result = extractor.extract_barrel_re_exports(source, "src/mod.rs");

    // Then: from_specifier = "./file" (not "./self/file"), symbols = ["File"]
    let entry = result.iter().find(|e| e.from_specifier == "./file");
    assert!(
        entry.is_some(),
        "./file not found in {:?} (self:: prefix should be stripped from symbol import)",
        result
    );
    let entry = entry.unwrap();
    assert!(
        entry.symbols.contains(&"File".to_string()),
        "Expected symbols=[\"File\"], got: {:?}",
        entry.symbols
    );
}

#[test]
fn rs_barrel_self_03_strips_self_from_use_list() {
    // Given: barrel source with `pub use self::sync::{Mutex, RwLock};`
    let source = "pub use self::sync::{Mutex, RwLock};\n";

    // When: extract_barrel_re_exports is called on mod.rs
    let extractor = RustExtractor::new();
    let result = extractor.extract_barrel_re_exports(source, "src/mod.rs");

    // Then: from_specifier = "./sync" (not "./self/sync"), symbols contains "Mutex" and "RwLock"
    let entry = result.iter().find(|e| e.from_specifier == "./sync");
    assert!(
        entry.is_some(),
        "./sync not found in {:?} (self:: prefix should be stripped from use list)",
        result
    );
    let entry = entry.unwrap();
    assert!(
        entry.symbols.contains(&"Mutex".to_string()),
        "Expected Mutex in symbols, got: {:?}",
        entry.symbols
    );
    assert!(
        entry.symbols.contains(&"RwLock".to_string()),
        "Expected RwLock in symbols, got: {:?}",
        entry.symbols
    );
}

#[test]
fn rs_barrel_cfg_self_01_strips_self_in_cfg_macro() {
    // Given: barrel source with cfg macro block containing `pub use self::inner::Symbol;`
    let source = "cfg_feat! { pub use self::inner::Symbol; }\n";

    // When: extract_barrel_re_exports is called on mod.rs
    let extractor = RustExtractor::new();
    let result = extractor.extract_barrel_re_exports(source, "src/mod.rs");

    // Then: from_specifier = "./inner" (not "./self/inner"), symbols = ["Symbol"]
    let entry = result.iter().find(|e| e.from_specifier == "./inner");
    assert!(
        entry.is_some(),
        "./inner not found in {:?} (self:: prefix should be stripped in cfg macro text path)",
        result
    );
    let entry = entry.unwrap();
    assert!(
        entry.symbols.contains(&"Symbol".to_string()),
        "Expected symbols=[\"Symbol\"], got: {:?}",
        entry.symbols
    );
}

#[test]
    fn rs_l0_01_cfg_test_present() {
        // Given: source with #[cfg(test)] mod tests block
        let source = r#"
pub fn add(a: i32, b: i32) -> i32 { a + b }

#[cfg(test)]
mod tests {
    use super::*;

    #[test]
    fn test_add() {
        assert_eq!(add(1, 2), 3);
    }
}
"#;
        // When: detect_inline_tests is called
        // Then: returns true
        assert!(detect_inline_tests(source));
    }

#[test]
    fn rs_l0_02_no_cfg_test() {
        // Given: source without #[cfg(test)]
        let source = r#"
pub fn add(a: i32, b: i32) -> i32 { a + b }
"#;
        // When: detect_inline_tests is called
        // Then: returns false
        assert!(!detect_inline_tests(source));
    }

#[test]
    fn rs_l0_03_cfg_not_test() {
        // Given: source with #[cfg(not(test))] only (no #[cfg(test)])
        let source = r#"
#[cfg(not(test))]
mod production_only {
    pub fn real_thing() {}
}
"#;
        // When: detect_inline_tests is called
        // Then: returns false
        assert!(!detect_inline_tests(source));
    }

#[test]
fn inline_tests_attribute_between_cfg_and_mod() {
    let source = "#[cfg(test)]\n#[allow(unused)]\nmod tests {}\n";
    assert!(detect_inline_tests(source));
}

#[test]
fn inline_tests_cfg_test_on_function_is_not_a_module() {
    let source = "#[cfg(test)]\nfn helper() {}\nmod later {}\n";
    assert!(!detect_inline_tests(source));
}

#[test]
fn inline_tests_nested_module_found() {
    let source = "mod outer {\n    #[cfg(test)]\n    mod inner {}\n}\n";
    assert!(detect_inline_tests(source));
}

#[test]
fn cfg_test_ranges_cover_test_modules() {
    let source = "pub fn a() {}\n#[cfg(test)]\n// c\nmod tests {}\n#[cfg(not(test))]\nmod p {}\n";
    assert_eq!(find_cfg_test_ranges(source), vec![(32, 44)]);
    let later = "#[cfg(test)]\nfn f() {}\nmod m {}\n";
    assert_eq!(find_cfg_test_ranges(later), vec![(23, 31)]);
    assert!(find_cfg_test_ranges("fn main() {}\n").is_empty());
}
#[test]
    fn rs_func_01_pub_function() {
        // Given: source with a pub function
        let source = "pub fn create_user() {}\n";

        // When: extract_production_functions is called
        let extractor = RustExtractor::new();
        let result = extractor.extract_production_functions(source, "src/user.rs");

        // Then: name="create_user", is_exported=true
        let func = result.iter().find(|f| f.name == "create_user");
        assert!(func.is_some(), "create_user not found in {:?}", result);
        assert!(func.unwrap().is_exported);
    }

#[test]
    fn rs_func_02_private_function() {
        // Given: source with a private function
        let source = "fn private_fn() {}\n";

        // When: extract_production_functions is called
        let extractor = RustExtractor::new();
        let result = extractor.extract_production_functions(source, "src/internal.rs");

        // Then: name="private_fn", is_exported=false
        let func = result.iter().find(|f| f.name == "private_fn");
        assert!(func.is_some(), "private_fn not found in {:?}", result);
        assert!(!func.unwrap().is_exported);
    }

#[test]
    fn rs_func_03_impl_method() {
        // Given: source with an impl block
        let source = r#"
struct User;

impl User {
    pub fn save(&self) {}
}
"#;
        // When: extract_production_functions is called
        let extractor = RustExtractor::new();
        let result = extractor.extract_production_functions(source, "src/user.rs");

        // Then: name="save", class_name=Some("User")
        let method = result.iter().find(|f| f.name == "save");
        assert!(method.is_some(), "save not found in {:?}", result);
        let method = method.unwrap();
        assert_eq!(method.class_name, Some("User".to_string()));
        assert!(method.is_exported);
    }

#[test]
    fn rs_func_04_cfg_test_excluded() {
        // Given: source with functions inside #[cfg(test)] mod
        let source = r#"
pub fn real_function() {}

#[cfg(test)]
mod tests {
    use super::*;

    #[test]
    fn test_real_function() {
        assert!(true);
    }
}
"#;
        // When: extract_production_functions is called
        let extractor = RustExtractor::new();
        let result = extractor.extract_production_functions(source, "src/lib.rs");

        // Then: only real_function is extracted, not test_real_function
        assert_eq!(result.len(), 1);
        assert_eq!(result[0].name, "real_function");
    }


#[test]
fn rust_production_functions_modules_traits_and_visibility() {
    let source = "pub(crate) fn a() {}\nmod m {\n    pub fn b() {}\n}\ntrait T {\n    fn c() {}\n}\nimpl T for S {\n    fn c() {}\n}\nfn outer() {\n    fn nested() {}\n}\n";
    let extractor = RustExtractor::new();
    let result = extractor.extract_production_functions(source, "src/x.rs");
    let got: Vec<(String, Option<String>, usize, bool)> = result
        .iter()
        .map(|f| (f.name.clone(), f.class_name.clone(), f.line, f.is_exported))
        .collect();
    assert_eq!(
        got,
        vec![
            ("a".to_string(), None, 1, true),
            ("b".to_string(), None, 3, true),
            ("c".to_string(), Some("S".to_string()), 9, false),
            ("outer".to_string(), None, 11, false),
        ]
    );
}

#[test]
fn rs_deep_reexport_03_pub_use_and_pub_mod() {
        // Given: mod.rs with `pub mod internal;` and `pub use internal::Exported;`
        let source = "pub mod internal;\npub use internal::Exported;\n";

        // When: extract_barrel_re_exports is called
        let extractor = RustExtractor::new();
        let result = extractor.extract_barrel_re_exports(source, "src/mod.rs");

        // Then: 2エントリ返す
        //   1. from_specifier="./internal", wildcard=true  (pub mod)
        //   2. from_specifier="./internal", symbols=["Exported"]  (pub use)
        let wildcard_entry = result
            .iter()
            .find(|e| e.from_specifier == "./internal" && e.wildcard);
        assert!(
            wildcard_entry.is_some(),
            "Expected wildcard=true entry for pub mod internal, got: {:?}",
            result
        );

        let symbol_entry = result.iter().find(|e| {
            e.from_specifier == "./internal"
                && !e.wildcard
                && e.symbols.contains(&"Exported".to_string())
        });
        assert!(
            symbol_entry.is_some(),
            "Expected symbols=[\"Exported\"] entry for pub use internal::Exported, got: {:?}",
            result
        );
    }

#[test]
fn rs_l0_detect_01_cfg_test_with_mod_block() {
        // Given: source with #[cfg(test)] followed by mod tests { ... }
        let source = r#"
pub fn add(a: i32, b: i32) -> i32 { a + b }

#[cfg(test)]
mod tests {
    use super::*;

    #[test]
fn test_add() {
        assert_eq!(add(1, 2), 3);
    }
}
"#;
        // When: detect_inline_tests is called
        // Then: returns true (real inline test module)
        assert!(detect_inline_tests(source));
    }

#[test]
fn rs_l0_detect_02_cfg_test_for_helper_method() {
        // Given: source with #[cfg(test)] applied to a function (not a mod)
        let source = r#"
pub struct Connection;

impl Connection {
    #[cfg(test)]
    pub fn test_helper(&self) -> bool {
        true
    }
}
"#;
        // When: detect_inline_tests is called
        // Then: returns false (cfg(test) does not annotate a mod_item)
        assert!(!detect_inline_tests(source));
    }

#[test]
fn rs_l0_detect_03_cfg_test_for_use_statement() {
        // Given: source with #[cfg(test)] applied to a use statement (mock substitution)
        let source = r#"
#[cfg(not(test))]
use real_http::Client;

#[cfg(test)]
use mock_http::Client;

pub fn fetch(url: &str) -> String {
    Client::get(url)
}
"#;
        // When: detect_inline_tests is called
        // Then: returns false (cfg(test) annotates a use item, not a mod_item)
        assert!(!detect_inline_tests(source));
    }

#[test]
fn rs_l0_detect_04_cfg_test_with_external_mod_ref() {
        // Given: source with #[cfg(test)] followed by mod tests; (semicolon form)
        let source = r#"
pub fn compute(x: i32) -> i32 { x * 2 }

#[cfg(test)]
mod tests;
"#;
        // When: detect_inline_tests is called
        // Then: returns true (mod_item via external module reference)
        assert!(detect_inline_tests(source));
    }

