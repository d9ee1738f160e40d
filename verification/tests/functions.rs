use exspec_lang::lang_python::functions::{
    count_assertion_messages_py, count_function_params, is_in_non_test_class,
    is_pytest_fixture_decorator,
};
use exspec_lang::lang_rust::functions::{
    count_assertion_messages_rust, count_fixture_lets, is_constructor_call, is_fixture_value,
};
use exspec_lang::syntax::{python_tree, rust_tree, SyntaxNode};

fn find(t: &[SyntaxNode], kind: &str, text_start: &str) -> usize {
    t.iter()
        .position(|n| n.kind == kind && n.text.starts_with(text_start))
        .unwrap_or_else(|| panic!("no {} starting with {:?}", kind, text_start))
}

fn find_all(t: &[SyntaxNode], kind: &str) -> Vec<usize> {
    (0..t.len()).filter(|&i| t[i].kind == kind).collect()
}

#[test]
fn non_test_class_detection() {
    let src = "class Helper:\n    def test_a(self):\n        pass\n\nclass TestX:\n    class Inner:\n        def test_b(self):\n            pass\n\ndef test_c():\n    pass\n";
    let t = python_tree(src).unwrap();
    let a = find(&t, "function_definition", "def test_a");
    let b = find(&t, "function_definition", "def test_b");
    let c = find(&t, "function_definition", "def test_c");
    assert!(is_in_non_test_class(&t, a));
    assert!(!is_in_non_test_class(&t, b));
    assert!(!is_in_non_test_class(&t, c));
}

#[test]
fn fixture_decorators() {
    let src = "@pytest.fixture(scope='module')\ndef db():\n    pass\n\n@fixture\ndef other():\n    pass\n\n@pytest.mark.slow\ndef test_x():\n    pass\n";
    let t = python_tree(src).unwrap();
    let ds = find_all(&t, "decorated_definition");
    assert_eq!(ds.len(), 3);
    assert!(is_pytest_fixture_decorator(&t, ds[0]));
    assert!(is_pytest_fixture_decorator(&t, ds[1]));
    assert!(!is_pytest_fixture_decorator(&t, ds[2]));
}

#[test]
fn parameter_counts() {
    let src = "class T:\n    def test_m(self, a, b):\n        x = 1\n\ndef test_f(a):\n    pass\n\ndef test_none():\n    pass\n";
    let t = python_tree(src).unwrap();
    let m = find(&t, "function_definition", "def test_m");
    let f = find(&t, "function_definition", "def test_f");
    let n = find(&t, "function_definition", "def test_none");
    assert_eq!(count_function_params(&t, m), 2);
    assert_eq!(count_function_params(&t, f), 1);
    assert_eq!(count_function_params(&t, n), 0);
    let inner = find(&t, "expression_statement", "x = 1");
    assert_eq!(count_function_params(&t, inner), 2);
    assert_eq!(count_function_params(&t, 0), 0);
}

#[test]
fn python_assertion_messages() {
    let src = "def test_x(self):\n    assert a == b, \"msg\"\n    assert a\n    self.assertEqual(a, b, \"why\")\n    self.assertEqual(a, b)\n";
    let t = python_tree(src).unwrap();
    let mut nodes = find_all(&t, "assert_statement");
    nodes.extend((0..t.len()).filter(|&i| t[i].kind == "call" && t[i].text.starts_with("self.assert")));
    assert_eq!(count_assertion_messages_py(&t, &nodes), 2);
}

#[test]
fn rust_constructor_calls() {
    let src = "fn t() {\n    let a = Config::builder().timeout(30).build();\n    let b = make();\n    let c = service.create();\n    let d = User { id: 1 };\n    let e;\n    let f = vec![1];\n    assert_eq!(a, b);\n}\n";
    let t = rust_tree(src).unwrap();
    let calls = find_all(&t, "call_expression");
    let first = find(&t, "call_expression", "Config::builder().timeout(30).build()");
    assert!(is_constructor_call(&t, first));
    let svc = find(&t, "call_expression", "service.create()");
    assert!(!is_constructor_call(&t, svc));
    assert!(!is_fixture_value(&t, svc));
    let lit = find(&t, "struct_expression", "User");
    assert!(is_fixture_value(&t, lit));
    assert!(calls.len() >= 3);
    let f = find(&t, "function_item", "fn t()");
    assert_eq!(count_fixture_lets(&t, f), 5);
}

#[test]
fn rust_assertion_messages() {
    let src = "fn t() {\n    assert!(x, \"m\");\n    assert!(x);\n    assert_eq!(a, b);\n    assert_eq!(a, b, \"m\");\n    assert_ne!(a, f(b, c));\n}\n";
    let t = rust_tree(src).unwrap();
    let nodes = find_all(&t, "macro_invocation");
    assert_eq!(nodes.len(), 5);
    assert_eq!(count_assertion_messages_rust(&t, &nodes), 2);
}

#[test]
fn parse_python_source() {
    let source = "def test_example():\n    pass\n";
    let tree = python_tree(source).unwrap();
    assert_eq!(tree[0].kind, "module");
    assert_eq!(tree[0].depth, 0);
}

#[test]
fn parse_rust_source() {
    let source = "#[test]\nfn test_example() {\n    assert_eq!(1, 1);\n}\n";
    let tree = rust_tree(source).unwrap();
    assert_eq!(tree[0].kind, "source_file");
    assert_eq!(tree[0].depth, 0);
}
