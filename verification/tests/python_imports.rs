use exspec_lang::lang_python::PythonExtractor;

#[test]
fn py_imp_03_absolute_import_dotted() {
    // Given: source with absolute import using dotted module path
    let source = "from myapp.models import User\n";

    // When: extract_all_import_specifiers is called
    let extractor = PythonExtractor::new();
    let result = extractor.extract_all_import_specifiers(source);

    // Then: contains ("myapp/models", ["User"])
    let entry = result.iter().find(|(spec, _)| spec == "myapp/models");
    assert!(entry.is_some(), "myapp/models not found in {:?}", result);
    let (_, symbols) = entry.unwrap();
    assert!(
        symbols.contains(&"User".to_string()),
        "User not in symbols: {:?}",
        symbols
    );
}

#[test]
fn py_imp_04_plain_import_skipped() {
    // Given: source with a plain stdlib import
    let source = "import os\n";

    // When: extract_all_import_specifiers is called
    let extractor = PythonExtractor::new();
    let result = extractor.extract_all_import_specifiers(source);

    // Then: "os" is present with empty symbols (bare import produces no symbol constraints)
    let os_entry = result.iter().find(|(spec, _)| spec == "os");
    assert!(
        os_entry.is_some(),
        "plain 'import os' should be included as bare import, got {:?}",
        result
    );
    let (_, symbols) = os_entry.unwrap();
    assert!(
        symbols.is_empty(),
        "expected empty symbols for bare import, got {:?}",
        symbols
    );
}

#[test]
fn py_import_01_bare_import_simple() {
    // Given: source with a bare import of a third-party package
    let source = "import httpx\n";

    // When: extract_all_import_specifiers is called
    let extractor = PythonExtractor::new();
    let result = extractor.extract_all_import_specifiers(source);

    // Then: contains ("httpx", []) -- bare import produces empty symbols
    let entry = result.iter().find(|(spec, _)| spec == "httpx");
    assert!(
        entry.is_some(),
        "httpx not found in {:?}; bare import should be included",
        result
    );
    let (_, symbols) = entry.unwrap();
    assert!(
        symbols.is_empty(),
        "expected empty symbols for bare import, got {:?}",
        symbols
    );
}

#[test]
fn py_import_01b_bare_import_attribute_access_narrowing() {
    // Given: source with bare import + attribute access (simple, non-dotted)
    let source = "import httpx\nhttpx.Client()\nhttpx.get('/api')\n";

    // When: extract_all_import_specifiers is called
    let extractor = PythonExtractor::new();
    let result = extractor.extract_all_import_specifiers(source);

    // Then: contains ("httpx", ["Client", "get"]) -- attribute access narrows symbols
    let entry = result.iter().find(|(spec, _)| spec == "httpx");
    assert!(entry.is_some(), "httpx not found in {:?}", result);
    let (_, symbols) = entry.unwrap();
    assert!(
        symbols.contains(&"Client".to_string()),
        "expected Client in symbols, got {:?}",
        symbols
    );
    assert!(
        symbols.contains(&"get".to_string()),
        "expected get in symbols, got {:?}",
        symbols
    );
}

#[test]
fn py_import_02a_dotted_bare_import_attribute_fallback() {
    // Given: source with dotted bare import + attribute access
    let source = "import os.path\nos.path.join('/a', 'b')\n";

    // When: extract_all_import_specifiers is called
    let extractor = PythonExtractor::new();
    let result = extractor.extract_all_import_specifiers(source);

    // Then: specifier="os/path", symbols=[] (fallback: tree-sitter @module_name captures
    //   "os" (single identifier) but import_name_parts[0] is "os.path", so mismatch → empty)
    let entry = result.iter().find(|(spec, _)| spec == "os/path");
    assert!(entry.is_some(), "os/path not found in {:?}", result);
    let (_, symbols) = entry.unwrap();
    assert!(
        symbols.is_empty(),
        "expected empty symbols for dotted bare import (intentional fallback), got {:?}",
        symbols
    );
}

#[test]
fn py_import_02_bare_import_dotted() {
    // Given: source with a dotted bare import
    let source = "import os.path\n";

    // When: extract_all_import_specifiers is called
    let extractor = PythonExtractor::new();
    let result = extractor.extract_all_import_specifiers(source);

    // Then: contains ("os/path", []) -- dots converted to slashes
    let entry = result.iter().find(|(spec, _)| spec == "os/path");
    assert!(
        entry.is_some(),
        "os/path not found in {:?}; dotted bare import should be converted",
        result
    );
    let (_, symbols) = entry.unwrap();
    assert!(
        symbols.is_empty(),
        "expected empty symbols for dotted bare import, got {:?}",
        symbols
    );
}

#[test]
fn py_import_03_from_import_regression() {
    // Given: source with a from-import (existing behaviour must not regress)
    let source = "from httpx import Client\n";

    // When: extract_all_import_specifiers is called
    let extractor = PythonExtractor::new();
    let result = extractor.extract_all_import_specifiers(source);

    // Then: contains ("httpx", ["Client"])
    let entry = result.iter().find(|(spec, _)| spec == "httpx");
    assert!(entry.is_some(), "httpx not found in {:?}", result);
    let (_, symbols) = entry.unwrap();
    assert!(
        symbols.contains(&"Client".to_string()),
        "Client not in symbols: {:?}",
        symbols
    );
}

#[test]
fn py_attr_01_bare_import_single_attribute() {
    // Given: source with a bare import and a single attribute access
    let source = "import httpx\nhttpx.Client()\n";

    // When: extract_all_import_specifiers is called
    let extractor = PythonExtractor::new();
    let result = extractor.extract_all_import_specifiers(source);

    // Then: contains ("httpx", ["Client"]) -- attribute access extracted as symbol
    let entry = result.iter().find(|(spec, _)| spec == "httpx");
    assert!(entry.is_some(), "httpx not found in {:?}", result);
    let (_, symbols) = entry.unwrap();
    assert_eq!(
        symbols,
        &vec!["Client".to_string()],
        "expected [\"Client\"] for bare import with attribute access, got {:?}",
        symbols
    );
}

#[test]
fn py_attr_02_bare_import_multiple_attributes() {
    // Given: source with a bare import and multiple attribute accesses
    let source = "import httpx\nhttpx.Client()\nhttpx.get()\n";

    // When: extract_all_import_specifiers is called
    let extractor = PythonExtractor::new();
    let result = extractor.extract_all_import_specifiers(source);

    // Then: contains ("httpx", [...]) with both "Client" and "get"
    let entry = result.iter().find(|(spec, _)| spec == "httpx");
    assert!(entry.is_some(), "httpx not found in {:?}", result);
    let (_, symbols) = entry.unwrap();
    assert!(
        symbols.contains(&"Client".to_string()),
        "Client not in symbols: {:?}",
        symbols
    );
    assert!(
        symbols.contains(&"get".to_string()),
        "get not in symbols: {:?}",
        symbols
    );
}

#[test]
fn py_attr_03_bare_import_deduplicated_attributes() {
    // Given: source with a bare import and duplicate attribute accesses
    let source = "import httpx\nhttpx.Client()\nhttpx.Client()\n";

    // When: extract_all_import_specifiers is called
    let extractor = PythonExtractor::new();
    let result = extractor.extract_all_import_specifiers(source);

    // Then: contains ("httpx", ["Client"]) -- duplicates removed
    let entry = result.iter().find(|(spec, _)| spec == "httpx");
    assert!(entry.is_some(), "httpx not found in {:?}", result);
    let (_, symbols) = entry.unwrap();
    assert_eq!(
        symbols,
        &vec!["Client".to_string()],
        "expected [\"Client\"] with deduplication, got {:?}",
        symbols
    );
}

#[test]
fn py_attr_04_bare_import_no_attribute_fallback() {
    // Given: source with a bare import but no attribute access
    let source = "import httpx\n";

    // When: extract_all_import_specifiers is called
    let extractor = PythonExtractor::new();
    let result = extractor.extract_all_import_specifiers(source);

    // Then: contains ("httpx", []) -- no attribute access means match-all fallback
    let entry = result.iter().find(|(spec, _)| spec == "httpx");
    assert!(
        entry.is_some(),
        "httpx not found in {:?}; bare import without attribute access should be included",
        result
    );
    let (_, symbols) = entry.unwrap();
    assert!(
        symbols.is_empty(),
        "expected empty symbols (fallback) for bare import with no attribute access, got {:?}",
        symbols
    );
}

#[test]
fn py_attr_05_from_import_regression() {
    // Given: source with a from-import (must not be affected by Phase 16 changes)
    let source = "from httpx import Client\n";

    // When: extract_all_import_specifiers is called
    let extractor = PythonExtractor::new();
    let result = extractor.extract_all_import_specifiers(source);

    // Then: contains ("httpx", ["Client"]) -- from-import path unchanged
    let entry = result.iter().find(|(spec, _)| spec == "httpx");
    assert!(entry.is_some(), "httpx not found in {:?}", result);
    let (_, symbols) = entry.unwrap();
    assert!(
        symbols.contains(&"Client".to_string()),
        "Client not in symbols: {:?}",
        symbols
    );
}


#[test]
fn py_imp_01_relative_import_from_dot() {
    // Given: source with relative import from .models
    let source = "from .models import User\n";

    // When: extract_imports is called
    let extractor = PythonExtractor::new();
    let result = extractor.extract_imports(source, "tests/test_user.py");

    // Then: one entry with specifier="./models", symbols=["User"]
    let imp = result.iter().find(|i| i.module_specifier == "./models");
    assert!(
        imp.is_some(),
        "import from ./models not found in {:?}",
        result
    );
    let imp = imp.unwrap();
    assert!(
        imp.symbols.contains(&"User".to_string()),
        "User not in symbols: {:?}",
        imp.symbols
    );
}

#[test]
fn py_imp_02_relative_import_two_dots() {
    // Given: source with two-dot relative import
    let source = "from ..utils import helper\n";

    // When: extract_imports is called
    let extractor = PythonExtractor::new();
    let result = extractor.extract_imports(source, "tests/unit/test_something.py");

    // Then: one entry with specifier="../utils", symbols=["helper"]
    let imp = result.iter().find(|i| i.module_specifier == "../utils");
    assert!(
        imp.is_some(),
        "import from ../utils not found in {:?}",
        result
    );
    let imp = imp.unwrap();
    assert!(
        imp.symbols.contains(&"helper".to_string()),
        "helper not in symbols: {:?}",
        imp.symbols
    );
}

#[test]
fn py_imp_05_from_dot_import_name() {
    // Given: source with `from . import views`
    let source = "from . import views\n";

    // When: extract_imports is called
    let extractor = PythonExtractor::new();
    let result = extractor.extract_imports(source, "tests/test_app.py");

    // Then: specifier="./views", symbols=["views"]
    let imp = result.iter().find(|i| i.module_specifier == "./views");
    assert!(imp.is_some(), "./views not found in {:?}", result);
    let imp = imp.unwrap();
    assert!(
        imp.symbols.contains(&"views".to_string()),
        "views not in symbols: {:?}",
        imp.symbols
    );
}

#[test]
fn py_barrel_02_re_export_named() {
    // Given: __init__.py content with a named re-export
    let source = "from .module import Foo\n";

    // When: extract_barrel_re_exports is called
    let extractor = PythonExtractor::new();
    let result = extractor.extract_barrel_re_exports(source, "__init__.py");

    // Then: one entry with symbols=["Foo"], from_specifier="./module"
    let entry = result.iter().find(|e| e.from_specifier == "./module");
    assert!(entry.is_some(), "./module not found in {:?}", result);
    let entry = entry.unwrap();
    assert!(
        entry.symbols.contains(&"Foo".to_string()),
        "Foo not in symbols: {:?}",
        entry.symbols
    );
}

#[test]
fn py_barrel_05_re_export_wildcard() {
    // Given: __init__.py content with a wildcard re-export
    let source = "from .module import *\n";

    // When: extract_barrel_re_exports is called
    let extractor = PythonExtractor::new();
    let result = extractor.extract_barrel_re_exports(source, "__init__.py");

    // Then: one entry with wildcard=true, from_specifier="./module", empty symbols
    let entry = result.iter().find(|e| e.from_specifier == "./module");
    assert!(entry.is_some(), "./module not found in {:?}", result);
    let entry = entry.unwrap();
    assert!(entry.wildcard, "expected wildcard=true, got {:?}", entry);
    assert!(
        entry.symbols.is_empty(),
        "expected empty symbols for wildcard, got {:?}",
        entry.symbols
    );
}

#[test]
fn py_barrel_06_re_export_named_multi_symbol() {
    // Given: __init__.py content with multiple named re-exports
    let source = "from .module import Foo, Bar\n";

    // When: extract_barrel_re_exports is called
    let extractor = PythonExtractor::new();
    let result = extractor.extract_barrel_re_exports(source, "__init__.py");

    // Then: one entry with wildcard=false, symbols=["Foo", "Bar"]
    let entry = result.iter().find(|e| e.from_specifier == "./module");
    assert!(entry.is_some(), "./module not found in {:?}", result);
    let entry = entry.unwrap();
    assert!(
        !entry.wildcard,
        "expected wildcard=false for named re-export, got {:?}",
        entry
    );
    assert!(
        entry.symbols.contains(&"Foo".to_string()),
        "Foo not in symbols: {:?}",
        entry.symbols
    );
    assert!(
        entry.symbols.contains(&"Bar".to_string()),
        "Bar not in symbols: {:?}",
        entry.symbols
    );
}


#[test]
fn relative_imports_grouped_with_lines() {
    let source = "from .models import User\nfrom .models import Group\nfrom ..utils import helper\n";
    let extractor = PythonExtractor::new();
    let result = extractor.extract_imports(source, "tests/test_user.py");
    assert_eq!(result.len(), 3);
    let user = result.iter().find(|m| m.symbol_name == "User").unwrap();
    assert_eq!(user.module_specifier, "./models");
    assert_eq!(user.line, 1);
    assert_eq!(user.file, "tests/test_user.py");
    assert_eq!(user.symbols, vec!["User".to_string(), "Group".to_string()]);
    let group = result.iter().find(|m| m.symbol_name == "Group").unwrap();
    assert_eq!(group.line, 2);
    assert_eq!(group.symbols, vec!["User".to_string(), "Group".to_string()]);
    let helper = result.iter().find(|m| m.symbol_name == "helper").unwrap();
    assert_eq!(helper.module_specifier, "../utils");
    assert_eq!(helper.line, 3);
    assert_eq!(helper.symbols, vec!["helper".to_string()]);
}

#[test]
fn relative_imports_skip_absolute_and_bare() {
    let source = "import os\nfrom myapp.models import User\nfrom ...pkg import x\n";
    let extractor = PythonExtractor::new();
    let result = extractor.extract_imports(source, "t.py");
    assert_eq!(result.len(), 1);
    assert_eq!(result[0].module_specifier, "../../pkg");
    assert_eq!(result[0].symbol_name, "x");
}

#[test]
fn absolute_specifiers_merge_and_sort_attributes() {
    let source = "import httpx\nhttpx.post()\nhttpx.Client()\nhttpx.post()\nfrom httpx import get\nfrom .local import thing\n";
    let extractor = PythonExtractor::new();
    let result = extractor.extract_all_import_specifiers(source);
    assert_eq!(result.len(), 1);
    assert_eq!(result[0].0, "httpx");
    assert_eq!(
        result[0].1,
        vec!["Client".to_string(), "post".to_string(), "get".to_string()]
    );
}

#[test]
fn absolute_specifiers_bare_after_from_keeps_symbols() {
    let source = "from httpx import Client\nimport httpx\nhttpx.get()\n";
    let extractor = PythonExtractor::new();
    let result = extractor.extract_all_import_specifiers(source);
    assert_eq!(result.len(), 1);
    assert_eq!(result[0].1, vec!["Client".to_string()]);
}

#[test]
fn barrel_re_exports_merge_symbols_and_wildcard() {
    let source = "from .a import X\nfrom .a import X\nfrom .a import *\nfrom ..b import Y\nfrom c import Z\n";
    let extractor = PythonExtractor::new();
    let result = extractor.extract_barrel_re_exports(source, "pkg/__init__.py");
    assert_eq!(result.len(), 2);
    let a = result.iter().find(|e| e.from_specifier == "./a").unwrap();
    assert_eq!(a.symbols, vec!["X".to_string()]);
    assert!(a.wildcard);
    assert!(!a.namespace_wildcard);
    let b = result.iter().find(|e| e.from_specifier == "../b").unwrap();
    assert_eq!(b.symbols, vec!["Y".to_string()]);
    assert!(!b.wildcard);
}
#[test]
    fn py_func_01_top_level_function() {
        // Given: Python source with a top-level function
        let source = r#"
def create_user():
    pass
"#;
        // When: extract_production_functions is called
        let extractor = PythonExtractor::new();
        let result = extractor.extract_production_functions(source, "src/users.py");

        // Then: name="create_user", class_name=None
        let func = result.iter().find(|f| f.name == "create_user");
        assert!(func.is_some(), "create_user not found in {:?}", result);
        let func = func.unwrap();
        assert_eq!(func.class_name, None);
    }

#[test]
    fn py_func_02_class_method() {
        // Given: Python source with a class containing a method
        let source = r#"
class User:
    def save(self):
        pass
"#;
        // When: extract_production_functions is called
        let extractor = PythonExtractor::new();
        let result = extractor.extract_production_functions(source, "src/models.py");

        // Then: name="save", class_name=Some("User")
        let method = result.iter().find(|f| f.name == "save");
        assert!(method.is_some(), "save not found in {:?}", result);
        let method = method.unwrap();
        assert_eq!(method.class_name, Some("User".to_string()));
    }

#[test]
    fn py_func_03_decorated_function() {
        // Given: Python source with a decorated function
        let source = r#"
import functools

def my_decorator(func):
    @functools.wraps(func)
    def wrapper(*args, **kwargs):
        return func(*args, **kwargs)
    return wrapper

@my_decorator
def endpoint():
    pass
"#;
        // When: extract_production_functions is called
        let extractor = PythonExtractor::new();
        let result = extractor.extract_production_functions(source, "src/views.py");

        // Then: endpoint is extracted
        let func = result.iter().find(|f| f.name == "endpoint");
        assert!(func.is_some(), "endpoint not found in {:?}", result);
    }

#[test]
fn production_functions_lines_classes_and_nesting() {
    let source = "def top():\n    def inner():\n        pass\n\nclass A:\n    def m(self):\n        pass\n\n    @staticmethod\n    def s():\n        pass\n\n@deco\ndef d():\n    pass\n\ndef top():\n    pass\n";
    let extractor = PythonExtractor::new();
    let result = extractor.extract_production_functions(source, "src/m.py");
    let got: Vec<(String, Option<String>, usize)> = result
        .iter()
        .map(|f| (f.name.clone(), f.class_name.clone(), f.line))
        .collect();
    assert_eq!(
        got,
        vec![
            ("top".to_string(), None, 1),
            ("m".to_string(), Some("A".to_string()), 6),
            ("s".to_string(), Some("A".to_string()), 10),
            ("d".to_string(), None, 14),
        ]
    );
    assert!(result.iter().all(|f| f.is_exported && f.file == "src/m.py"));
}
