use std::collections::HashSet;
use exspec_lang::lang_python::observe::extract_assertion_referenced_imports;
use exspec_lang::lang_python::observe::{production_stem, test_stem};
use exspec_lang::lang_python::PythonExtractor;

#[test]
fn py_stem_01_test_prefix() {
    // Given: a file named test_user.py
    // When: test_stem is called
    // Then: returns Some("user")
    let extractor = PythonExtractor::new();
    let result = extractor.test_stem("tests/test_user.py");
    assert_eq!(result, Some("user"));
}

#[test]
fn py_stem_02_test_suffix() {
    // Given: a file named user_test.py
    // When: test_stem is called
    // Then: returns Some("user")
    let extractor = PythonExtractor::new();
    let result = extractor.test_stem("tests/user_test.py");
    assert_eq!(result, Some("user"));
}

#[test]
fn py_stem_03_test_prefix_multi_segment() {
    // Given: a file named test_user_service.py
    // When: test_stem is called
    // Then: returns Some("user_service")
    let extractor = PythonExtractor::new();
    let result = extractor.test_stem("tests/test_user_service.py");
    assert_eq!(result, Some("user_service"));
}

#[test]
fn py_stem_04_production_stem_regular() {
    // Given: a regular production file user.py
    // When: production_stem is called
    // Then: returns Some("user")
    let extractor = PythonExtractor::new();
    let result = extractor.production_stem("src/user.py");
    assert_eq!(result, Some("user"));
}

#[test]
fn py_stem_05_production_stem_init() {
    // Given: __init__.py (barrel file)
    // When: production_stem is called
    // Then: returns None
    let extractor = PythonExtractor::new();
    let result = extractor.production_stem("src/__init__.py");
    assert_eq!(result, None);
}

#[test]
fn py_stem_06_production_stem_test_file() {
    // Given: a test file test_user.py
    // When: production_stem is called
    // Then: returns None (test files are not production)
    let extractor = PythonExtractor::new();
    let result = extractor.production_stem("tests/test_user.py");
    assert_eq!(result, None);
}

#[test]
fn py_helper_01_conftest() {
    // Given: conftest.py
    // When: is_non_sut_helper is called
    // Then: returns true
    let extractor = PythonExtractor::new();
    assert!(extractor.is_non_sut_helper("tests/conftest.py", false));
}

#[test]
fn py_helper_02_constants() {
    // Given: constants.py
    // When: is_non_sut_helper is called
    // Then: returns true
    let extractor = PythonExtractor::new();
    assert!(extractor.is_non_sut_helper("src/constants.py", false));
}

#[test]
fn py_helper_03_init() {
    // Given: __init__.py
    // When: is_non_sut_helper is called
    // Then: returns true
    let extractor = PythonExtractor::new();
    assert!(extractor.is_non_sut_helper("src/__init__.py", false));
}

#[test]
fn py_helper_04_utils_under_tests_dir() {
    // Given: utils.py under tests/ directory (not a test file)
    // When: is_non_sut_helper is called
    // Then: returns true
    let extractor = PythonExtractor::new();
    assert!(extractor.is_non_sut_helper("tests/utils.py", false));
}

#[test]
fn py_helper_05_models_is_not_helper() {
    // Given: models.py (regular production file)
    // When: is_non_sut_helper is called
    // Then: returns false
    let extractor = PythonExtractor::new();
    assert!(!extractor.is_non_sut_helper("src/models.py", false));
}

#[test]
fn py_helper_06_tests_common_helper_despite_known_production() {
    // Given: file is tests/common.py with is_known_production=true
    // When: is_non_sut_helper is called
    // Then: returns true (path segment check overrides is_known_production)
    let extractor = PythonExtractor::new();
    assert!(extractor.is_non_sut_helper("tests/common.py", true));
}

#[test]
fn py_helper_07_tests_subdirectory_helper() {
    // Given: file is tests/testserver/server.py (inside tests/ dir but not a test file)
    // When: is_non_sut_helper is called
    // Then: returns true (path segment check catches subdirectories)
    let extractor = PythonExtractor::new();
    assert!(extractor.is_non_sut_helper("tests/testserver/server.py", true));
}

#[test]
fn py_helper_08_tests_compat_helper() {
    // Given: file is tests/compat.py (inside tests/ dir, not a test file)
    // When: is_non_sut_helper is called
    // Then: returns true
    let extractor = PythonExtractor::new();
    assert!(extractor.is_non_sut_helper("tests/compat.py", false));
}

#[test]
fn py_helper_09_deep_nested_test_dir_helper() {
    // Given: file is tests/fixtures/data.py (deeply nested inside tests/)
    // When: is_non_sut_helper is called
    // Then: returns true (path segment check catches any depth under tests/)
    let extractor = PythonExtractor::new();
    assert!(extractor.is_non_sut_helper("tests/fixtures/data.py", false));
}

#[test]
fn py_helper_10_tests_in_filename_not_helper() {
    // Given: file is src/tests.py ("tests" is in filename, not a directory segment)
    // When: is_non_sut_helper is called
    // Then: returns false (path segment check must not match filename)
    let extractor = PythonExtractor::new();
    assert!(!extractor.is_non_sut_helper("src/tests.py", false));
}

#[test]
fn py_helper_11_test_singular_dir_helper() {
    // Given: file is test/helpers.py (singular "test" directory, not "tests")
    // When: is_non_sut_helper is called
    // Then: returns true (segment check matches both "tests" and "test")
    let extractor = PythonExtractor::new();
    assert!(extractor.is_non_sut_helper("test/helpers.py", true));
}

#[test]
fn py_barrel_01_init_is_barrel() {
    // Given: __init__.py
    // When: is_barrel_file is called
    // Then: returns true
    let extractor = PythonExtractor::new();
    assert!(extractor.is_barrel_file("src/mypackage/__init__.py"));
}

#[test]
fn py_stem_07_production_stem_single_underscore_prefix() {
    // Given: production file path "httpx/_decoders.py"
    // When: production_stem() is called
    // Then: returns Some("decoders") (single leading underscore stripped)
    let extractor = PythonExtractor::new();
    let result = extractor.production_stem("httpx/_decoders.py");
    assert_eq!(result, Some("decoders"));
}

#[test]
fn py_stem_08_production_stem_double_underscore_strips_one() {
    // Given: production file path "httpx/__version__.py"
    // When: production_stem() is called
    // Then: returns Some("_version") (only one leading underscore stripped, not __init__ which returns None)
    let extractor = PythonExtractor::new();
    let result = extractor.production_stem("httpx/__version__.py");
    assert_eq!(result, Some("_version"));
}

#[test]
fn py_stem_09_production_stem_no_prefix_regression() {
    // Given: production file path "httpx/decoders.py" (no underscore prefix)
    // When: production_stem() is called
    // Then: returns Some("decoders") (unchanged, no regression)
    let extractor = PythonExtractor::new();
    let result = extractor.production_stem("httpx/decoders.py");
    assert_eq!(result, Some("decoders"));
}

#[test]
fn py_stem_10_production_stem_triple_underscore() {
    // Given: production file path "pkg/___triple.py"
    // When: production_stem() is called
    // Then: returns Some("__triple") (one leading underscore stripped)
    let extractor = PythonExtractor::new();
    let result = extractor.production_stem("pkg/___triple.py");
    assert_eq!(result, Some("__triple"));
}

#[test]
fn py_stem_11_production_stem_prefix_and_suffix_chained() {
    // Given: production file path "pkg/___foo__.py"
    // When: production_stem() is called
    // Then: returns Some("__foo") (strip_prefix('_') -> "__foo__", strip_suffix("__") -> "__foo")
    let extractor = PythonExtractor::new();
    let result = extractor.production_stem("pkg/___foo__.py");
    assert_eq!(result, Some("__foo"));
}

#[test]
fn py_stem_12_production_stem_dunder_prefix_and_suffix() {
    // Given: production file path "pkg/__foo__.py"
    // When: production_stem() is called
    // Then: returns Some("_foo") (strip_prefix('_') -> "_foo__", strip_suffix("__") -> "_foo")
    let extractor = PythonExtractor::new();
    let result = extractor.production_stem("pkg/__foo__.py");
    assert_eq!(result, Some("_foo"));
}

#[test]
fn py_stem_13_tests_file_with_parent_dir() {
    // Given: path = "app/tests.py"
    // When: test_stem(path)
    // Then: Some("app") (parent directory name used as stem)
    let result = test_stem("app/tests.py");
    assert_eq!(result, Some("app"));
}

#[test]
fn py_stem_14_tests_file_with_nested_parent_dir() {
    // Given: path = "tests/aggregation/tests.py"
    // When: test_stem(path)
    // Then: Some("aggregation") (immediate parent directory name used as stem)
    let result = test_stem("tests/aggregation/tests.py");
    assert_eq!(result, Some("aggregation"));
}

#[test]
fn py_stem_15_tests_file_no_parent_dir() {
    // Given: path = "tests.py" (no parent directory component)
    // When: test_stem(path)
    // Then: None (no parent dir to derive stem from, defer to Layer 2)
    let result = test_stem("tests.py");
    assert_eq!(result, None);
}

#[test]
fn py_stem_16_production_stem_excludes_tests_file() {
    // Given: path = "app/tests.py"
    // When: production_stem(path)
    // Then: None (tests.py must not appear in production_files)
    let result = production_stem("app/tests.py");
    assert_eq!(result, None);
}


#[test]
fn py_af_01_assert_via_assigned_var() {
        // Given: source where Client is assigned then asserted
        let source = r#"
from pkg.client import Client

def test_something():
    client = Client()
    assert client.ok
"#;
        // When: extract_assertion_referenced_imports is called
        let result: HashSet<String> = extract_assertion_referenced_imports(source).into_iter().collect();

        // Then: Client is in asserted_imports (assigned var `client` appears in assertion)
        assert!(
            result.contains("Client"),
            "Client should be in asserted_imports; got {:?}",
            result
        );
    }

#[test]
fn py_af_02_setup_only_import_excluded() {
        // Given: source where MockTransport is assigned but never asserted
        let source = r#"
from pkg.client import Client
from pkg.transport import MockTransport

def test_something():
    transport = MockTransport()
    client = Client(transport=transport)
    assert client.ok
"#;
        // When: extract_assertion_referenced_imports is called
        let result: HashSet<String> = extract_assertion_referenced_imports(source).into_iter().collect();

        // Then: MockTransport is NOT in asserted_imports (only used in setup)
        assert!(
            !result.contains("MockTransport"),
            "MockTransport should NOT be in asserted_imports (setup-only); got {:?}",
            result
        );
        // And: Client IS in asserted_imports (via chain: client -> Client)
        assert!(
            result.contains("Client"),
            "Client should be in asserted_imports; got {:?}",
            result
        );
    }

#[test]
fn py_af_03_direct_call_in_assertion() {
        // Given: source where two classes are directly called inside an assert
        let source = r#"
from pkg.models import A, B

def test_equality():
    assert A() == B()
"#;
        // When: extract_assertion_referenced_imports is called
        let result: HashSet<String> = extract_assertion_referenced_imports(source).into_iter().collect();

        // Then: both A and B are in asserted_imports
        assert!(
            result.contains("A"),
            "A should be in asserted_imports (used directly in assert); got {:?}",
            result
        );
        assert!(
            result.contains("B"),
            "B should be in asserted_imports (used directly in assert); got {:?}",
            result
        );
    }

#[test]
fn py_af_04_pytest_raises_captures_exception_class() {
        // Given: source using pytest.raises with an imported exception class
        let source = r#"
import pytest
from pkg.exceptions import HTTPError

def test_raises():
    with pytest.raises(HTTPError):
        raise HTTPError("fail")
"#;
        // When: extract_assertion_referenced_imports is called
        let result: HashSet<String> = extract_assertion_referenced_imports(source).into_iter().collect();

        // Then: HTTPError is in asserted_imports (appears in pytest.raises assertion node)
        assert!(
            result.contains("HTTPError"),
            "HTTPError should be in asserted_imports (pytest.raises arg); got {:?}",
            result
        );
    }

#[test]
fn py_af_05_chain_tracking_two_hops() {
        // Given: source with a 2-hop chain: response derived from client, client from Client()
        let source = r#"
from pkg.client import Client

def test_response():
    client = Client()
    response = client.get("http://example.com/")
    assert response.ok
"#;
        // When: extract_assertion_referenced_imports is called
        let result: HashSet<String> = extract_assertion_referenced_imports(source).into_iter().collect();

        // Then: Client is reachable (response -> client -> Client, 2-hop chain)
        assert!(
            result.contains("Client"),
            "Client should be in asserted_imports via 2-hop chain; got {:?}",
            result
        );
    }

#[test]
fn py_af_06a_no_assertions_returns_empty() {
        // Given: source with imports but zero assertion statements
        let source = r#"
from pkg.client import Client
from pkg.transport import MockTransport

def test_setup_no_assert():
    client = Client()
    transport = MockTransport()
    # No assert statement at all
"#;
        // When: extract_assertion_referenced_imports is called
        let result: HashSet<String> = extract_assertion_referenced_imports(source).into_iter().collect();

        // Then: asserted_imports is EMPTY (no assertions found, so no symbols traced)
        // The caller (map_test_files_with_imports) is responsible for the fallback.
        assert!(
            result.is_empty(),
            "expected empty asserted_imports when no assertions present; got {:?}",
            result
        );
    }

#[test]
fn py_af_06b_assertion_exists_but_no_import_intersection() {
        // Given: source where the assertion references a local variable (not an import)
        let source = r#"
from pkg.client import Client

def test_local_only():
    local_value = 42
    # Assertion references only a local literal, not any imported symbol
    assert local_value == 42
"#;
        // When: extract_assertion_referenced_imports is called
        let result: HashSet<String> = extract_assertion_referenced_imports(source).into_iter().collect();

        // Then: asserted_imports does NOT contain Client
        // (Client is never referenced inside an assertion node)
        assert!(
            !result.contains("Client"),
            "Client should NOT be in asserted_imports (not referenced in assertion); got {:?}",
            result
        );
        // Note: `result` may be empty or contain other identifiers from the assertion,
        // but the key property is that the imported symbol Client is absent.
    }

#[test]
fn py_af_07_unittest_self_assert() {
        // Given: unittest-style test using self.assertEqual
        let source = r#"
import unittest
from pkg.models import MyModel

class TestMyModel(unittest.TestCase):
    def test_value(self):
        result = MyModel()
        self.assertEqual(result.value, 42)
"#;
        // When: extract_assertion_referenced_imports is called
        let result: HashSet<String> = extract_assertion_referenced_imports(source).into_iter().collect();

        // Then: MyModel is in asserted_imports (result -> MyModel, result in assertEqual)
        assert!(
            result.contains("MyModel"),
            "MyModel should be in asserted_imports via self.assertEqual; got {:?}",
            result
        );
    }

