use exspec_lang::lang_python::observe::{assertion_referenced_imports, find_manage_py_root};
use exspec_lang::lang_rust::observe::{find_workspace_members, DirEntry, WorkspaceMember};
use exspec_lang::mapping::{
    assertion_filter, bare_relative_specifiers, import_tracing_targets, inline_test_self_map,
    layer2_test_files, list_test_for, member_test_files, ImportTrace, stem_only_fallback, track_new_matches, update_strategies,
};
use exspec_lang::observe::MappingStrategy;
use exspec_lang::syntax::SyntaxNode;

fn s(x: &str) -> String {
    x.to_string()
}

fn sv(xs: &[&str]) -> Vec<String> {
    xs.iter().map(|x| x.to_string()).collect()
}

#[test]
fn stem_fallback_maps_unique_stem_only() {
    let prods = sv(&["src/app/user.py", "src/app/order.py", "lib/order.py"]);
    let tests = sv(&["tests/test_user.py", "tests/test_order.py", "tests/test_missing.py"]);
    let mut lists: Vec<Vec<String>> = vec![vec![], vec![], vec![]];
    stem_only_fallback(&mut lists, &prods, &tests);
    assert_eq!(lists[0], sv(&["tests/test_user.py"]));
    assert!(lists[1].is_empty());
    assert!(lists[2].is_empty());
}

#[test]
fn stem_fallback_skips_tests_already_mapped() {
    let prods = sv(&["src/user.py", "src/other.py"]);
    let tests = sv(&["tests/test_user.py"]);
    let mut lists: Vec<Vec<String>> = vec![vec![], sv(&["tests/test_user.py"])];
    stem_only_fallback(&mut lists, &prods, &tests);
    assert!(lists[0].is_empty());
    assert_eq!(lists[1], sv(&["tests/test_user.py"]));
}

#[test]
fn strategies_upgrade_to_import_tracing() {
    let mut st = vec![
        MappingStrategy::FileNameConvention,
        MappingStrategy::FileNameConvention,
        MappingStrategy::FileNameConvention,
        MappingStrategy::FileNameConvention,
    ];
    let layer1 = vec![sv(&["t1"]), vec![], vec![], sv(&["t4"])];
    let now = vec![sv(&["t1", "t9"]), sv(&["t2"]), vec![], sv(&["t4"])];
    update_strategies(&mut st, &layer1, &now, &vec![3]);
    assert_eq!(st[0], MappingStrategy::FileNameConvention);
    assert_eq!(st[1], MappingStrategy::ImportTracing);
    assert_eq!(st[2], MappingStrategy::FileNameConvention);
    assert_eq!(st[3], MappingStrategy::ImportTracing);
}

#[test]
fn track_new_matches_records_symbols_of_new_indices() {
    let mut table: Vec<(usize, Vec<String>)> = vec![(1, sv(&["A"]))];
    track_new_matches(&vec![1, 2, 3], &vec![2], &sv(&["A", "B"]), &mut table);
    assert_eq!(table, vec![(1, sv(&["A", "B"])), (3, sv(&["A", "B"]))]);
}

#[test]
fn assertion_filter_cases() {
    let table: Vec<(usize, Vec<String>)> = vec![(0, sv(&["User"])), (1, sv(&["helper"])), (2, sv(&["Order"]))];
    let all = vec![0, 1, 2];
    let mut r = assertion_filter(&all, &table, &vec![], &vec![]);
    r.sort();
    assert_eq!(r, vec![0, 1, 2]);
    let mut r = assertion_filter(&all, &table, &sv(&["nothing"]), &vec![]);
    r.sort();
    assert_eq!(r, vec![0, 1, 2]);
    let mut r = assertion_filter(&all, &table, &sv(&["User"]), &vec![2, 7]);
    r.sort();
    assert_eq!(r, vec![0, 2]);
}

#[test]
fn bare_relative_specifier_cases() {
    assert_eq!(bare_relative_specifiers("../", &sv(&["x", "y"])), Some(sv(&["../x", "../y"])));
    assert_eq!(bare_relative_specifiers("./", &sv(&["views"])), Some(sv(&["./views"])));
    assert_eq!(bare_relative_specifiers("./models", &sv(&["User"])), None);
    assert_eq!(bare_relative_specifiers("../../", &sv(&["x"])), None);
    assert_eq!(bare_relative_specifiers("", &sv(&["x"])), None);
}

#[test]
fn inline_tests_map_production_file_to_itself() {
    let prods = sv(&["src/calc.rs", "src/lib.rs", "src/plain.rs", "src/unread.rs"]);
    let with_tests = "pub fn f() {}\n#[cfg(test)]\nmod tests {}\n";
    let sources = vec![Some(s(with_tests)), Some(s(with_tests)), Some(s("pub fn g() {}\n")), None];
    let mut lists: Vec<Vec<String>> = vec![vec![], vec![], vec![], vec![]];
    inline_test_self_map(&mut lists, &prods, &sources);
    assert_eq!(lists[0], sv(&["src/calc.rs"]));
    assert!(lists[1].is_empty());
    assert!(lists[2].is_empty());
    assert!(lists[3].is_empty());
}

#[test]
fn import_tracing_targets_cases() {
    let members = vec![
        WorkspaceMember { crate_name: s("core_a"), member_root: s("/w/crates/a") },
        WorkspaceMember { crate_name: s("core_b"), member_root: s("/w/crates/b") },
    ];
    let t = import_tracing_targets(Some(s("root")), &members, "/w");
    assert_eq!(
        t,
        vec![
            (s("root"), s("/w"), None),
            (s("core_a"), s("/w/crates/a"), Some(0)),
            (s("core_b"), s("/w/crates/b"), Some(1)),
        ]
    );
    let t = import_tracing_targets(None, &vec![], "/w");
    assert_eq!(t, vec![(s("crate"), s("/w"), None)]);
    let t = import_tracing_targets(Some(s("solo")), &vec![], "/w");
    assert_eq!(t, vec![(s("solo"), s("/w"), None)]);
}

#[test]
fn member_test_files_partition() {
    let members = vec![
        WorkspaceMember { crate_name: s("a"), member_root: s("/w/crates/a") },
        WorkspaceMember { crate_name: s("nested"), member_root: s("/w/crates/a/nested") },
    ];
    let tests = sv(&["/w/crates/a/tests/t1.rs", "/w/crates/a/nested/tests/t2.rs", "/w/tests/t3.rs"]);
    assert_eq!(member_test_files(&tests, &members, 0), sv(&["/w/crates/a/tests/t1.rs"]));
    assert_eq!(member_test_files(&tests, &members, 1), sv(&["/w/crates/a/nested/tests/t2.rs"]));
}

fn dir(path: &str, depth: usize, manifest: Option<&str>) -> DirEntry {
    DirEntry {
        path: s(path),
        name: Some(s(path.rsplit('/').next().unwrap())),
        depth,
        is_dir: true,
        is_scan_root: false,
        manifest: manifest.map(|m| m.to_string()),
    }
}

#[test]
fn workspace_members_from_walk() {
    let ws = "[workspace]\nmembers = [\"crates/*\"]\n";
    let entries = vec![
        dir("/w/crates", 0, None),
        dir("/w/crates/my-core", 1, Some("[package]\nname = \"my-core\"\n")),
        dir("/w/crates/my-core/inner", 2, Some("[package]\nname = \"inner\"\n")),
        dir("/w/crates/cli", 1, Some("[package]\nname = 'cli'\n")),
        dir("/w/target", 0, Some("[package]\nname = \"ignored\"\n")),
        dir("/w/.hidden", 0, Some("[package]\nname = \"hidden\"\n")),
        dir("/w/a", 0, None),
        dir("/w/a/b", 1, None),
        dir("/w/a/b/c", 2, None),
        dir("/w/a/b/c/d", 3, None),
        dir("/w/a/b/c/d/e", 4, Some("[package]\nname = \"deep4\"\n")),
        dir("/w/a/b/c/d/e2", 4, None),
        dir("/w/a/b/c/d/e2/f", 5, Some("[package]\nname = \"too_deep\"\n")),
    ];
    let members = find_workspace_members(Some(ws), &entries);
    let got: Vec<(String, String)> = members.into_iter().map(|m| (m.crate_name, m.member_root)).collect();
    assert_eq!(
        got,
        vec![
            (s("my_core"), s("/w/crates/my-core")),
            (s("cli"), s("/w/crates/cli")),
            (s("deep4"), s("/w/a/b/c/d/e")),
        ]
    );
    assert!(find_workspace_members(Some("[package]\nname = \"x\"\n"), &entries).is_empty());
    assert!(find_workspace_members(None, &entries).is_empty());
}

#[test]
fn manage_py_root_cases() {
    let entries = vec![
        (s("/p/docs"), 1, true, false),
        (s("/p/docs/site"), 2, true, true),
        (s("/p/manage.py"), 1, false, true),
        (s("/p/backend"), 1, true, true),
    ];
    assert_eq!(find_manage_py_root(false, &entries), Some(s("/p/backend")));
    assert_eq!(find_manage_py_root(true, &entries), None);
    let deeper = vec![(s("/p/docs"), 1, true, false), (s("/p/docs/site"), 2, true, true)];
    assert_eq!(find_manage_py_root(false, &deeper), Some(s("/p/docs/site")));
    assert_eq!(find_manage_py_root(false, &vec![]), None);
}

fn node(kind: &str, depth: usize, start: usize, end: usize, text: &str) -> SyntaxNode {
    SyntaxNode {
        kind: s(kind),
        field: None,
        depth,
        start_byte: start,
        end_byte: end,
        row: 0,
        named: true,
        text: s(text),
    }
}

#[test]
fn assertion_names_follow_two_assignment_hops() {
    let tree = vec![
        node("module", 0, 0, 30, ""),
        node("assert_statement", 1, 0, 10, "assert x"),
        node("identifier", 2, 7, 8, "x"),
        node("expression_statement", 1, 11, 30, "y = z"),
        node("identifier", 2, 11, 12, "y"),
    ];
    let assigns = vec![
        (s("x"), s("Foo")),
        (s("Foo"), s("Bar")),
        (s("Bar"), s("Baz")),
        (s("same"), s("same")),
        (s(""), s("Empty")),
    ];
    let mut names = assertion_referenced_imports(&tree, &vec![(0, 10)], &assigns);
    names.sort();
    names.dedup();
    assert_eq!(names, sv(&["Bar", "Foo", "x"]));
    assert!(assertion_referenced_imports(&tree, &vec![], &assigns).is_empty());
}

#[test]
fn import_trace_records_direct_and_barrel_imports() {
    let mut t = ImportTrace::new();
    // A direct import of `User` matches production files 2 and 0.
    t.record_import(&vec![2, 0], &vec![s("User")], false, false, false);
    assert_eq!(t.all_matched, vec![2, 0]);
    assert_eq!(t.direct, vec![2, 0]);
    assert!(t.manage_py_only.is_empty());
    // A barrel import adds file 1 but no direct index.
    t.record_import(&vec![0, 1], &vec![s("Admin")], true, false, false);
    assert_eq!(t.all_matched, vec![2, 0, 1]);
    assert_eq!(t.direct, vec![2, 0]);
    let sym_of = |k: usize| t.idx_to_symbols.iter().find(|e| e.0 == k).map(|e| e.1.clone());
    assert_eq!(sym_of(0), Some(vec![s("User")]));
    assert_eq!(sym_of(1), Some(vec![s("Admin")]));
    // A barrel import of a test that layer 1 matched is skipped.
    t.record_import(&vec![3], &vec![s("X")], true, true, false);
    assert_eq!(t.all_matched, vec![2, 0, 1]);
    // A direct import found only through the manage.py root.
    t.record_import(&vec![3], &vec![s("View")], false, false, true);
    assert_eq!(t.all_matched, vec![2, 0, 1, 3]);
    assert_eq!(t.direct, vec![2, 0, 3]);
    assert_eq!(t.manage_py_only, vec![3]);
}

#[test]
fn tests_listed_once_per_production_file() {
    let mut lists = vec![vec![s("tests/test_a.py")], vec![], vec![]];
    list_test_for(&mut lists, &vec![0, 2, 2], &s("tests/test_a.py"));
    assert_eq!(lists, vec![vec![s("tests/test_a.py")], vec![], vec![s("tests/test_a.py")]]);
}

#[test]
fn l1_exclusive_skips_layer1_matched_tests() {
    let tests = vec![s("tests/test_a.py"), s("tests/test_b.py"), s("tests/test_c.py")];
    let l1 = vec![s("tests/test_b.py")];
    assert_eq!(layer2_test_files(&tests, &l1, false), tests);
    assert_eq!(layer2_test_files(&tests, &l1, true), vec![s("tests/test_a.py"), s("tests/test_c.py")]);
}
