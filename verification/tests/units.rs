use exspec_lang::lang_python::observe::{
    python_module_to_absolute_specifier, python_module_to_relative_specifier, strip_string_quotes,
};
use exspec_lang::lang_python::observe::exports_any_symbol;
use exspec_lang::lang_python::PythonExtractor;
use exspec_lang::lang_rust::observe::{
    crate_name_from_manifest, detect_inline_tests, extract_import_specifiers_with_crate_name,
    rust_exports_any_symbol,
    find_cfg_test_ranges, extract_pub_use_re_exports, extract_re_exports_from_text,
    find_member_for_path, manifest_has_workspace_section, parse_use_path, WorkspaceMember,
};
use exspec_lang::text::sort_dedup;

#[test]
fn relative_specifiers() {
    assert_eq!(python_module_to_relative_specifier(".models"), "./models");
    assert_eq!(python_module_to_relative_specifier("..utils"), "../utils");
    assert_eq!(python_module_to_relative_specifier("...pkg.mod"), "../../pkg.mod");
    assert_eq!(python_module_to_relative_specifier("."), ".");
    assert_eq!(python_module_to_relative_specifier(".."), "..");
    assert_eq!(python_module_to_relative_specifier("plain.mod"), "plain.mod");
}

#[test]
fn absolute_specifiers() {
    assert_eq!(python_module_to_absolute_specifier("myapp.models"), "myapp/models");
    assert_eq!(python_module_to_absolute_specifier("os"), "os");
    assert_eq!(python_module_to_absolute_specifier(".models"), "./models");
    assert_eq!(python_module_to_absolute_specifier("."), ".");
}

#[test]
fn string_quotes() {
    assert_eq!(strip_string_quotes("'/users'"), "/users");
    assert_eq!(strip_string_quotes("\"hello\""), "hello");
    assert_eq!(strip_string_quotes("r\"x\\d\""), "x\\d");
    assert_eq!(strip_string_quotes("rb'''doc'''"), "doc");
    assert_eq!(strip_string_quotes("\"\"\"a\"b\"\"\""), "a\"b");
    assert_eq!(strip_string_quotes("bare"), "are");
    assert_eq!(strip_string_quotes("'unterminated"), "'unterminated");
}

#[test]
fn use_paths() {
    let mut table: Vec<(String, Vec<String>)> = Vec::new();
    parse_use_path("user::User", &mut table);
    parse_use_path("models::user::User", &mut table);
    parse_use_path("user::{Admin, self}", &mut table);
    parse_use_path("service::*", &mut table);
    parse_use_path("config", &mut table);
    assert_eq!(
        table,
        vec![
            ("user".to_string(), vec!["User".to_string(), "Admin".to_string(), "self".to_string()]),
            ("models/user".to_string(), vec!["User".to_string()]),
            ("service".to_string(), vec![]),
            ("config".to_string(), vec![]),
        ]
    );
}

#[test]
fn manifests() {
    let m = "[package]\nname = \"my-crate\"\nversion = \"0.1.0\"\n\n[dependencies]\nname = \"other\"\n";
    assert_eq!(crate_name_from_manifest(m), Some("my_crate".to_string()));
    assert_eq!(crate_name_from_manifest("[package]\nname = 'single'\n"), Some("single".to_string()));
    assert_eq!(crate_name_from_manifest("[dependencies]\nname = \"x\"\n[package]\nversion = \"1\"\n"), None);
    assert_eq!(crate_name_from_manifest("[workspace]\nmembers = []\n"), None);
    assert!(manifest_has_workspace_section("[package]\n  [workspace]  \n"));
    assert!(!manifest_has_workspace_section("[workspace.dependencies]\n"));
}

#[test]
fn member_lookup_prefers_longest_root() {
    let members = vec![
        WorkspaceMember { crate_name: "a".to_string(), member_root: "/w/crates/a".to_string() },
        WorkspaceMember { crate_name: "ab".to_string(), member_root: "/w/crates/a/b".to_string() },
    ];
    assert_eq!(find_member_for_path("/w/crates/a/b/src/x.rs", &members).unwrap().crate_name, "ab");
    assert_eq!(find_member_for_path("/w/crates/a/src/x.rs", &members).unwrap().crate_name, "a");
    assert!(find_member_for_path("/w/crates/abc/src/x.rs", &members).is_none());
}

#[test]
fn pub_use_re_exports() {
    let mut out = Vec::new();
    extract_pub_use_re_exports("self::sub::*", &mut out);
    extract_pub_use_re_exports("util::{A, B}", &mut out);
    assert_eq!(out.len(), 2);
    assert_eq!(out[0].from_specifier, "./sub");
    assert!(out[0].wildcard);
    assert_eq!(out[1].from_specifier, "./util");
    assert_eq!(out[1].symbols, vec!["A".to_string(), "B".to_string()]);
}

#[test]
fn text_re_exports() {
    let mut out = Vec::new();
    extract_re_exports_from_text("pub mod foo;\n    pub use bar::Baz;\nmod private;\n", &mut out);
    let specs: Vec<&str> = out.iter().map(|r| r.from_specifier.as_str()).collect();
    assert!(specs.contains(&"./foo"));
    assert!(specs.contains(&"./bar"));
    assert!(!specs.contains(&"./private"));
}

#[test]
fn sorted_without_duplicates() {
    let v = vec!["b".to_string(), "B".to_string(), "a".to_string(), "b".to_string()];
    assert_eq!(sort_dedup(&v), vec!["B".to_string(), "a".to_string(), "b".to_string()]);
}

#[test]
fn detected_inline_tests_have_ranges() {
    let src = "fn a() {}\n#[cfg(test)]\n#[allow(unused)]\nmod tests {\n    fn t() {}\n}\n";
    assert!(detect_inline_tests(src));
    let r = find_cfg_test_ranges(src);
    assert_eq!(r.len(), 1);
    assert_eq!(&src[r[0].0..r[0].1], "mod tests {\n    fn t() {}\n}");
    assert!(!detect_inline_tests("#[cfg(test)]\nfn helper() {}\n"));
}

#[test]
fn python_specifiers_relative_and_absolute() {
    let src = "from .models import User\nfrom ..utils import helper\nfrom . import views\nimport os\nfrom pkg.sub import X\n";
    let ex = PythonExtractor::new();
    let rel = ex.extract_imports(src, "tests/test_a.py");
    assert!(!rel.is_empty());
    for m in &rel {
        assert!(m.module_specifier.starts_with("./") || m.module_specifier.starts_with("../"));
    }
    let abs = ex.extract_all_import_specifiers(src);
    assert!(!abs.is_empty());
    for (k, _) in &abs {
        assert!(!k.is_empty() && !k.starts_with("./") && !k.starts_with("../"));
    }
    let re = ex.extract_barrel_re_exports("from .a import X\nfrom ..b import y\n", "pkg/__init__.py");
    assert_eq!(re.len(), 2);
    for r in &re {
        assert!(r.from_specifier.starts_with("./") || r.from_specifier.starts_with("../"));
    }
}

#[test]
fn bare_dot_imports_are_relative_imports() {
    let ex = PythonExtractor::new();
    let src = "from . import views\nfrom .. import helpers\n";
    let rel = ex.extract_imports(src, "pkg/tests/test_a.py");
    let specs: Vec<&str> = rel.iter().map(|m| m.module_specifier.as_str()).collect();
    assert!(specs.contains(&"./views"));
    assert!(specs.contains(&"../"));
    assert!(ex.extract_all_import_specifiers(src).is_empty());
    let re = ex.extract_barrel_re_exports("from . import views\n", "pkg/__init__.py");
    assert_eq!(re.len(), 1);
    assert_eq!(re[0].from_specifier, "./");
    assert_eq!(re[0].symbols, vec!["views".to_string()]);
}

#[test]
fn crate_name_only_adds_imports() {
    let src = "use crate::user::User;\nuse my_crate::user::Admin;\nuse my_crate::service::Svc;\nuse std::fmt;\n";
    let without = extract_import_specifiers_with_crate_name(src, None);
    let with = extract_import_specifiers_with_crate_name(src, Some("my_crate"));
    assert_eq!(without, vec![("user".to_string(), vec!["User".to_string()])]);
    for (k, syms) in &without {
        let other = with.iter().find(|(k2, _)| k2 == k).unwrap();
        for s in syms {
            assert!(other.1.contains(s));
        }
    }
    assert_eq!(with.len(), 2);
}

#[test]
fn bare_import_attributes_sorted_once() {
    let ex = PythonExtractor::new();
    let src = "import httpx\nhttpx.get('a')\nhttpx.Client()\nhttpx.get('b')\nhttpx.AsyncClient()\n";
    let table = ex.extract_all_import_specifiers(src);
    assert_eq!(
        table,
        vec![("httpx".to_string(), vec!["AsyncClient".to_string(), "Client".to_string(), "get".to_string()])]
    );
}

#[test]
fn rs_export_pub_only_01_pub_fn_matches() {
    let symbols = vec!["create_user".to_string()];
    assert!(rust_exports_any_symbol("pub fn create_user() {}", &symbols));
}

#[test]
fn rs_export_pub_only_02_pub_crate_excluded() {
    let symbols = vec!["Handle".to_string()];
    assert!(!rust_exports_any_symbol("pub(crate) struct Handle {}", &symbols));
}

#[test]
fn rs_export_pub_only_03_pub_super_excluded() {
    let symbols = vec!["helper".to_string()];
    assert!(!rust_exports_any_symbol("pub(super) fn helper() {}", &symbols));
}

#[test]
fn rs_export_pub_only_04_mixed_visibility() {
    let symbols = vec!["User".to_string()];
    assert!(rust_exports_any_symbol("pub struct User {}\npub(crate) struct Inner {}", &symbols));
}

#[test]
fn rust_exports_kinds_and_fallbacks() {
    let src = "pub struct User;\npub enum Role { A }\nfn internal_only() {}\npub use crate::x::Foo;\npub mod bar;\n";
    assert!(rust_exports_any_symbol(src, &vec!["Role".to_string()]));
    assert!(!rust_exports_any_symbol(src, &vec!["NonExistent".to_string()]));
    assert!(!rust_exports_any_symbol(src, &vec!["internal_only".to_string()]));
    assert!(!rust_exports_any_symbol(src, &vec!["Foo".to_string(), "bar".to_string()]));
    assert!(rust_exports_any_symbol(src, &vec![]));
}

#[test]
fn python_exports_follow_dunder_all() {
    let src = "from .foo import Foo\nfrom .bar import Bar\n__all__ = [\"Foo\", 'Baz']\n";
    assert!(exports_any_symbol(src, &vec!["Foo".to_string()]));
    assert!(exports_any_symbol(src, &vec!["Bar".to_string(), "Baz".to_string()]));
    assert!(!exports_any_symbol(src, &vec!["Bar".to_string()]));
    assert!(exports_any_symbol("from .foo import Foo\n", &vec!["Bar".to_string()]));
    assert!(!exports_any_symbol("__all__ = []\n", &vec!["Foo".to_string()]));
    assert!(exports_any_symbol("__all__ = ('Foo',)\n", &vec!["Foo".to_string()]));
}
