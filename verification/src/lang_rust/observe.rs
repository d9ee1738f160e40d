//! Rust file-name conventions, `use` paths, re-exports and Cargo workspace
//! layout used to map tests to the production code they exercise.

use vstd::prelude::*;
use crate::paths::{components, file_name, file_name_range};
use crate::syntax::{
    SyntaxNode, SyntaxNodeView, child_by_field, child_by_field_exec, kids, kids_exec, kind_is,
    named_child, named_child_exec, nodes_view, parse_rust, rust_syntax, parent_of, parent_exec,
    lemma_kids, subtree_end,
};
use crate::observe::{
    BarrelReExport, BarrelReExportView, reexports_view, table_extend, table_extend_exec,
    table_view, keys_unique, lemma_table_extend_unique, ProductionFunction,
    ProductionFunctionView, add_function, add_function_exec, functions_view, key_index,
    lemma_key_index,
};
use crate::lang_python::observe::line_of;
use crate::text::{
    contains_chars, find_char, find_char_exec, join_exec, join_seq, lemma_find_char_props,
    nested_view, replace_chars, replace_seq, split_char, split_char_exec, split_seq,
    split_seq_exec, string_of, strings_view, trim, trim_exec, ends_with, ends_with_lit, is_char,
    trim_end_by, trim_start_seq, lines, lines_exec, starts_with_chars, slice_chars,
    lemma_trim_end_by_take, contains_char, opt_string_view, lemma_split_nonempty,
    backslash_to_slash, backslash_to_slash_exec, chars_of, contains_lit, contains_seq, eq_lit,
    eq_lit_range, opt_view, starts_with, starts_with_lit, strip_prefix, strip_prefix_range,
    strip_suffix, strip_suffix_range, trim_end_char_exec, lemma_replace_colons_free,
    lemma_split_parts_free, lemma_join_slash_free, occurs_at, lemma_replace_join, lemma_join_lacks,
    lemma_join_nonempty, lemma_split_join_colons,
};

verus! {

// ---------------------------------------------------------------------------
// Stem helpers
// ---------------------------------------------------------------------------

/// A path that lies inside a `tests/` directory (after `\` became `/`).
pub open spec fn under_tests_dir(normalized: Seq<char>) -> bool {
    starts_with(normalized, "tests/"@) || contains_seq(normalized, "/tests/"@)
}

/// What `test_stem` gives for a Rust path: the `X` of a non-empty
/// `test_X.rs` or `X_test.rs`, or the stem of any other file under `tests/`
/// except `mod.rs` and `main.rs`.
pub open spec fn rs_test_stem(path: Seq<char>) -> Option<Seq<char>> {
    match file_name(path) {
        None => None,
        Some(name) => match strip_suffix(name, ".rs"@) {
            None => None,
            Some(stem) => {
                let by_prefix = strip_prefix(stem, "test_"@);
                let by_suffix = strip_suffix(stem, "_test"@);
                if by_prefix is Some && by_prefix->0.len() > 0 {
                    by_prefix
                } else if by_suffix is Some && by_suffix->0.len() > 0 {
                    by_suffix
                } else if under_tests_dir(backslash_to_slash(path)) && stem != "mod"@ && stem
                    != "main"@ {
                    Some(stem)
                } else {
                    None
                }
            },
        },
    }
}

/// What `production_stem` gives for a Rust path: the stem of any `.rs`
/// file that is not a barrel (`lib.rs`, `mod.rs`), an entry point
/// (`main.rs`), a build script or a test file.
pub open spec fn rs_production_stem(path: Seq<char>) -> Option<Seq<char>> {
    match file_name(path) {
        None => None,
        Some(name) => match strip_suffix(name, ".rs"@) {
            None => None,
            Some(stem) => if stem == "lib"@ || stem == "mod"@ || stem == "main"@ {
                None
            } else if rs_test_stem(path) is Some {
                None
            } else if name == "build.rs"@ {
                None
            } else {
                Some(stem)
            },
        },
    }
}

/// Extract stem from a Rust test file path.
/// `tests/test_foo.rs` -> `Some("foo")`  (test_ prefix)
/// `tests/foo_test.rs` -> `Some("foo")`  (_test suffix)
/// `tests/integration.rs` -> `Some("integration")` (tests/ dir = integration test)
/// `src/user.rs` -> `None`
pub fn test_stem(path: &str) -> (r: Option<&str>)
    ensures
        opt_view(r) == rs_test_stem(path@),
{
    let v = chars_of(path);
    let (a, b) = match file_name_range(v.as_slice()) {
        Some(r) => r,
        None => return None,
    };
    let e = match strip_suffix_range(v.as_slice(), a, b, ".rs") {
        Some(e) => e,
        None => return None,
    };
    if let Some(k) = strip_prefix_range(v.as_slice(), a, e, "test_") {
        if k < e {
            return Some(path.substring_char(k, e));
        }
    }
    if let Some(k) = strip_suffix_range(v.as_slice(), a, e, "_test") {
        if a < k {
            return Some(path.substring_char(a, k));
        }
    }
    let normalized = backslash_to_slash_exec(v.as_slice());
    if starts_with_lit(normalized.as_slice(), "tests/") || contains_lit(
        normalized.as_slice(),
        "/tests/",
    ) {
        if !eq_lit_range(v.as_slice(), a, e, "mod") && !eq_lit_range(v.as_slice(), a, e, "main") {
            return Some(path.substring_char(a, e));
        }
    }
    None
}

/// Extract stem from a Rust production file path.
/// `src/user.rs` -> `Some("user")`
/// `src/lib.rs` -> `None` (barrel)
/// `src/mod.rs` -> `None` (barrel)
/// `src/main.rs` -> `None` (entry point)
/// `tests/test_foo.rs` -> `None` (test file)
pub fn production_stem(path: &str) -> (r: Option<&str>)
    ensures
        opt_view(r) == rs_production_stem(path@),
{
    let v = chars_of(path);
    let (a, b) = match file_name_range(v.as_slice()) {
        Some(r) => r,
        None => return None,
    };
    let e = match strip_suffix_range(v.as_slice(), a, b, ".rs") {
        Some(e) => e,
        None => return None,
    };
    if eq_lit_range(v.as_slice(), a, e, "lib") || eq_lit_range(v.as_slice(), a, e, "mod")
        || eq_lit_range(v.as_slice(), a, e, "main") {
        return None;
    }
    if test_stem(path).is_some() {
        return None;
    }
    if eq_lit_range(v.as_slice(), a, b, "build.rs") {
        return None;
    }
    Some(path.substring_char(a, e))
}

/// What `is_non_sut_helper` decides for a Rust path: build scripts, shared
/// integration-test helpers under `tests/common/`, benchmarks and examples.
pub open spec fn rs_is_non_sut_helper(path: Seq<char>) -> bool {
    let normalized = backslash_to_slash(path);
    ||| file_name(normalized) == Some("build.rs"@)
    ||| contains_seq(normalized, "/tests/common/"@)
    ||| starts_with(normalized, "tests/common/"@)
    ||| starts_with(normalized, "benches/"@)
    ||| contains_seq(normalized, "/benches/"@)
    ||| starts_with(normalized, "examples/"@)
    ||| contains_seq(normalized, "/examples/"@)
}

/// Check if a file is a non-SUT helper (not subject under test).
pub fn is_non_sut_helper(file_path: &str, _is_known_production: bool) -> (r: bool)
    ensures
        r == rs_is_non_sut_helper(file_path@),
{
    let v = chars_of(file_path);
    let n = backslash_to_slash_exec(v.as_slice());
    let is_build = match file_name_range(n.as_slice()) {
        Some((a, b)) => eq_lit_range(n.as_slice(), a, b, "build.rs"),
        None => false,
    };
    if is_build {
        return true;
    }
    let ns = n.as_slice();
    contains_lit(ns, "/tests/common/") || starts_with_lit(ns, "tests/common/") || starts_with_lit(
        ns,
        "benches/",
    ) || contains_lit(ns, "/benches/") || starts_with_lit(ns, "examples/") || contains_lit(
        ns,
        "/examples/",
    )
}

// ---------------------------------------------------------------------------
// Use paths
// ---------------------------------------------------------------------------

/// The number of bytes of `c` in UTF-8 (`char::len_utf8`).
pub open spec fn utf8_len(c: char) -> nat {
    if (c as u32) < 0x80 {
        1
    } else if (c as u32) < 0x800 {
        2
    } else if (c as u32) < 0x10000 {
        3
    } else {
        4
    }
}

fn utf8_len_exec(c: char) -> (r: usize)
    ensures
        r == utf8_len(c),
{
    let u = c as u32;
    if u < 0x80 {
        1
    } else if u < 0x800 {
        2
    } else if u < 0x10000 {
        3
    } else {
        4
    }
}

/// How many characters before the `{` at `bs` form the module part of a use
/// list once the two bytes of its `::` are dropped; `None` when dropping two
/// bytes would cut a character in half (the byte slice would panic).
pub open spec fn brace_module_cut(p: Seq<char>, bs: int) -> Option<int> {
    if bs <= 0 {
        Some(0)
    } else if utf8_len(p[bs - 1]) == 2 {
        Some(bs - 1)
    } else if utf8_len(p[bs - 1]) > 2 {
        None
    } else if bs == 1 {
        Some(0)
    } else if utf8_len(p[bs - 2]) == 1 {
        Some(bs - 2)
    } else {
        None
    }
}

/// The module part before the `{` at `bs` can be cut out, and the first `}`
/// does not come before that `{`.
pub open spec fn brace_list_ok(p: Seq<char>, bs: int) -> bool {
    &&& brace_module_cut(p, bs) is Some
    &&& find_char(p, '}') matches Some(be) ==> be >= bs + 1
}

/// A use path whose `{...}` list can be cut out by byte position: the two
/// bytes before `{` end on a character boundary, and a `}` comes after the
/// `{` (slicing a `&str` there panics otherwise).
pub open spec fn use_path_ok(p: Seq<char>) -> bool {
    find_char(p, '{') matches Some(bs) ==> brace_list_ok(p, bs)
}

fn brace_module_cut_exec(v: &[char], bs: usize) -> (r: Option<usize>)
    requires
        bs <= v@.len(),
    ensures
        match brace_module_cut(v@, bs as int) {
            Some(k) => r == Some(k as usize) && 0 <= k <= bs,
            None => r is None,
        },
{
    if bs == 0 {
        return Some(0);
    }
    let l1 = utf8_len_exec(v[bs - 1]);
    if l1 == 2 {
        Some(bs - 1)
    } else if l1 > 2 {
        None
    } else if bs == 1 {
        Some(0)
    } else if utf8_len_exec(v[bs - 2]) == 1 {
        Some(bs - 2)
    } else {
        None
    }
}

/// Trimmed pieces of a `{A, B}` list that are kept: non-empty, and not `*`
/// when `drop_star` holds.
pub open spec fn keep_symbols(parts: Seq<Seq<char>>, drop_star: bool) -> Seq<Seq<char>>
    decreases parts.len(),
{
    if parts.len() == 0 {
        parts
    } else {
        let k = keep_symbols(parts.drop_last(), drop_star);
        let t = trim(parts.last());
        if t.len() > 0 && !(drop_star && t == "*"@) {
            k.push(t)
        } else {
            k
        }
    }
}

/// The symbols of the list text between `{` and `}`.
pub open spec fn list_symbols(list: Seq<char>, drop_star: bool) -> Seq<Seq<char>> {
    keep_symbols(split_char(list, ','), drop_star)
}

/// The symbols of a use list, as strings.
fn list_symbols_exec(v: &[char], a: usize, b: usize, drop_star: bool) -> (r: Vec<String>)
    requires
        a <= b <= v@.len(),
    ensures
        strings_view(r@) == list_symbols(v@.subrange(a as int, b as int), drop_star),
{
    let list = vstd::slice::slice_subrange(v, a, b);
    let parts = split_char_exec(list, ',');
    let ghost pv = nested_view(parts@);
    let mut out: Vec<String> = Vec::new();
    let mut i: usize = 0;
    while i < parts.len()
        invariant
            pv == nested_view(parts@),
            pv == split_char(list@, ','),
            i <= parts@.len(),
            strings_view(out@) == keep_symbols(pv.take(i as int), drop_star),
        decreases parts@.len() - i,
    {
        let t = trim_exec(parts[i].as_slice());
        assert(pv.take((i + 1) as int).drop_last() == pv.take(i as int));
        assert(pv.take((i + 1) as int).last() == parts@[i as int]@);
        if t.len() > 0 && !(drop_star && eq_lit(t.as_slice(), "*")) {
            let ghost old_out = strings_view(out@);
            out.push(string_of(t.as_slice()));
            assert(strings_view(out@) =~= old_out.push(t@));
        }
        i = i + 1;
    }
    assert(pv.take(parts@.len() as int) == pv);
    out
}

/// The table after recording the use path `p` (what follows `crate::` or
/// the crate's name): a list `m::{A, B}` adds `A`, `B` under `m`; a
/// wildcard `m::*` registers `m`; a lone module registers itself; and
/// `m::n::S` adds `S` under `m/n`.
pub open spec fn use_path_update(
    p: Seq<char>,
    m: Seq<(Seq<char>, Seq<Seq<char>>)>,
) -> Seq<(Seq<char>, Seq<Seq<char>>)> {
    match find_char(p, '{') {
        Some(bs) => {
            let spec = replace_seq(p.take(brace_module_cut(p, bs)->0), "::"@, "/"@);
            match find_char(p, '}') {
                Some(be) => if spec.len() > 0 {
                    table_extend(m, spec, list_symbols(p.subrange(bs + 1, be), true))
                } else {
                    m
                },
                None => m,
            }
        },
        None => match strip_suffix(p, "::*"@) {
            Some(module_part) => {
                let spec = replace_seq(module_part, "::"@, "/"@);
                if spec.len() > 0 {
                    table_extend(m, spec, Seq::<Seq<char>>::empty())
                } else {
                    m
                }
            },
            None => if !contains_seq(p, "::"@) && p.len() > 0 {
                table_extend(m, p, Seq::<Seq<char>>::empty())
            } else {
                let parts = split_seq(p, "::"@);
                if parts.len() >= 2 {
                    table_extend(m, join_seq(parts.drop_last(), "/"@), seq![parts.last()])
                } else {
                    m
                }
            },
        },
    }
}

/// Record a use path after `crate::` has been stripped.
/// e.g. "user::User" -> ("user", ["User"])
///      "models::user::User" -> ("models/user", ["User"])
///      "user::{User, Admin}" -> ("user", ["User", "Admin"])
///      "user::*" -> ("user", [])
pub fn parse_use_path(path: &str, result: &mut Vec<(String, Vec<String>)>)
    requires
        use_path_ok(path@),
    ensures
        table_view(final(result)@) == use_path_update(path@, table_view(old(result)@)),
{
    let v = chars_of(path);
    let colons = chars_of("::");
    let slash = chars_of("/");
    proof {
        reveal_strlit("::");
    }
    if let Some(bs) = find_char_exec(v.as_slice(), '{') {
        proof {
            lemma_find_char_props(v@, '{');
            lemma_find_char_props(v@, '}');
        }
        let cut = match brace_module_cut_exec(v.as_slice(), bs) {
            Some(c) => c,
            None => return,
        };
        let module_part = vstd::slice::slice_subrange(v.as_slice(), 0, cut);
        assert(module_part@ == v@.take(cut as int));
        let spec = replace_chars(module_part, colons.as_slice(), slash.as_slice());
        if let Some(be) = find_char_exec(v.as_slice(), '}') {
            let symbols = list_symbols_exec(v.as_slice(), bs + 1, be, true);
            if spec.len() > 0 {
                table_extend_exec(result, string_of(spec.as_slice()), symbols);
            }
        }
        return;
    }
    let n = v.len();
    assert(v@.subrange(0, n as int) == v@);
    if let Some(e) = strip_suffix_range(v.as_slice(), 0, n, "::*") {
        let module_part = vstd::slice::slice_subrange(v.as_slice(), 0, e);
        let spec = replace_chars(module_part, colons.as_slice(), slash.as_slice());
        if spec.len() > 0 {
            let empty: Vec<String> = Vec::new();
            assert(strings_view(empty@) =~= Seq::<Seq<char>>::empty());
            table_extend_exec(result, string_of(spec.as_slice()), empty);
        }
        return;
    }
    if !contains_chars(v.as_slice(), colons.as_slice()) && n > 0 {
        let empty: Vec<String> = Vec::new();
        assert(strings_view(empty@) =~= Seq::<Seq<char>>::empty());
        table_extend_exec(result, String::from_str(path), empty);
        return;
    }
    let parts = split_seq_exec(v.as_slice(), colons.as_slice());
    if parts.len() >= 2 {
        let module_parts = vstd::slice::slice_subrange(parts.as_slice(), 0, parts.len() - 1);
        assert(nested_view(module_parts@) =~= nested_view(parts@).drop_last());
        let spec = join_exec(module_parts, slash.as_slice());
        let mut syms: Vec<String> = Vec::new();
        syms.push(string_of(parts[parts.len() - 1].as_slice()));
        assert(strings_view(syms@) =~= seq![nested_view(parts@).last()]);
        table_extend_exec(result, string_of(spec.as_slice()), syms);
    }
}

// ---------------------------------------------------------------------------
// Re-exports
// ---------------------------------------------------------------------------

/// A re-export of `symbols` from `./tail`.
pub open spec fn reexport_view(
    symbols: Seq<Seq<char>>,
    tail: Seq<char>,
    wildcard: bool,
) -> BarrelReExportView {
    BarrelReExportView {
        symbols: symbols,
        from_specifier: "./"@ + tail,
        wildcard: wildcard,
        namespace_wildcard: false,
    }
}

/// The re-export that a `pub use` path denotes (after `self::` has been
/// removed): `*` re-exports the module itself, `m::*` everything of `m`,
/// `m::{A, B}` the listed symbols and `m::S` the single symbol `S`.
pub open spec fn use_reexport(full: Seq<char>, drop_star: bool) -> Option<BarrelReExportView> {
    if full == "*"@ {
        Some(reexport_view(Seq::<Seq<char>>::empty(), Seq::<char>::empty(), true))
    } else if ends_with(full, "::*"@) {
        Some(
            reexport_view(
                Seq::<Seq<char>>::empty(),
                replace_seq(strip_suffix(full, "::*"@)->0, "::"@, "/"@),
                true,
            ),
        )
    } else {
        match find_char(full, '{') {
            Some(bs) => match find_char(full, '}') {
                Some(be) => Some(
                    reexport_view(
                        list_symbols(full.subrange(bs + 1, be), drop_star),
                        replace_seq(full.take(brace_module_cut(full, bs)->0), "::"@, "/"@),
                        false,
                    ),
                ),
                None => None,
            },
            None => {
                let parts = split_seq(full, "::"@);
                if parts.len() >= 2 {
                    Some(
                        reexport_view(
                            seq![parts.last()],
                            join_seq(parts.drop_last(), "/"@),
                            false,
                        ),
                    )
                } else {
                    None
                }
            },
        }
    }
}

/// A `pub use` path that can be read without that panic (see
/// [`use_path_ok`]).
pub open spec fn use_reexport_ok(full: Seq<char>) -> bool {
    !(full == "*"@) && !ends_with(full, "::*"@) ==> use_path_ok(full)
}

fn make_reexport(symbols: Vec<String>, tail: &[char], wildcard: bool) -> (r: BarrelReExport)
    ensures
        r@ == reexport_view(strings_view(symbols@), tail@, wildcard),
{
    let mut spec = String::from_str("./");
    let t = string_of(tail);
    spec.append(t.as_str());
    BarrelReExport { symbols, from_specifier: spec, wildcard, namespace_wildcard: false }
}

/// The re-export that the `pub use` path `v` denotes.
fn use_reexport_exec(v: &[char], drop_star: bool) -> (r: Option<BarrelReExport>)
    requires
        use_reexport_ok(v@),
    ensures
        match use_reexport(v@, drop_star) {
            Some(x) => r matches Some(y) && y@ == x,
            None => r is None,
        },
{
    let colons = chars_of("::");
    let slash = chars_of("/");
    proof {
        reveal_strlit("::");
    }
    let n = v.len();
    assert(v@.subrange(0, n as int) == v@);
    if eq_lit(v, "*") {
        let empty: Vec<String> = Vec::new();
        let r = make_reexport(empty, vstd::slice::slice_subrange(v, 0, 0), true);
        assert(strings_view(empty@) =~= Seq::<Seq<char>>::empty());
        assert(v@.subrange(0, 0) =~= Seq::<char>::empty());
        return Some(r);
    }
    if let Some(e) = strip_suffix_range(v, 0, n, "::*") {
        let module_part = vstd::slice::slice_subrange(v, 0, e);
        let tail = replace_chars(module_part, colons.as_slice(), slash.as_slice());
        let empty: Vec<String> = Vec::new();
        assert(strings_view(empty@) =~= Seq::<Seq<char>>::empty());
        return Some(make_reexport(empty, tail.as_slice(), true));
    }
    if let Some(bs) = find_char_exec(v, '{') {
        proof {
            lemma_find_char_props(v@, '{');
            lemma_find_char_props(v@, '}');
        }
        let cut = match brace_module_cut_exec(v, bs) {
            Some(c) => c,
            None => return None,
        };
        if let Some(be) = find_char_exec(v, '}') {
            let module_part = vstd::slice::slice_subrange(v, 0, cut);
            assert(module_part@ == v@.take(cut as int));
            let tail = replace_chars(module_part, colons.as_slice(), slash.as_slice());
            let symbols = list_symbols_exec(v, bs + 1, be, drop_star);
            return Some(make_reexport(symbols, tail.as_slice(), false));
        }
        return None;
    }
    let parts = split_seq_exec(v, colons.as_slice());
    if parts.len() >= 2 {
        let module_parts = vstd::slice::slice_subrange(parts.as_slice(), 0, parts.len() - 1);
        assert(nested_view(module_parts@) =~= nested_view(parts@).drop_last());
        let tail = join_exec(module_parts, slash.as_slice());
        let mut syms: Vec<String> = Vec::new();
        syms.push(string_of(parts[parts.len() - 1].as_slice()));
        assert(strings_view(syms@) =~= seq![nested_view(parts@).last()]);
        return Some(make_reexport(syms, tail.as_slice(), false));
    }
    None
}

/// The text of a `pub use` argument without a leading `self::`.
pub open spec fn without_self(text: Seq<char>) -> Seq<char> {
    match strip_prefix(text, "self::"@) {
        Some(r) => r,
        None => text,
    }
}

/// A `pub use` argument that can be read without that panic.
pub open spec fn pub_use_text_ok(text: Seq<char>) -> bool {
    use_reexport_ok(without_self(text))
}

/// The re-exports that the argument text of a `pub use` declaration adds.
pub open spec fn pub_use_reexports(text: Seq<char>) -> Seq<BarrelReExportView> {
    match use_reexport(without_self(text), false) {
        Some(r) => seq![r],
        None => Seq::<BarrelReExportView>::empty(),
    }
}

/// Record the re-exports of a `pub use` declaration whose argument reads
/// `text` (`self::*`, `m::*`, `m::{A, B}` or `m::S`).
pub fn extract_pub_use_re_exports(text: &str, result: &mut Vec<BarrelReExport>)
    requires
        pub_use_text_ok(text@),
    ensures
        reexports_view(final(result)@) == reexports_view(old(result)@) + pub_use_reexports(text@),
{
    let v = chars_of(text);
    let n = v.len();
    let a = match strip_prefix_range(v.as_slice(), 0, n, "self::") {
        Some(k) => k,
        None => 0,
    };
    assert(v@.subrange(0, n as int) == v@);
    let full = vstd::slice::slice_subrange(v.as_slice(), a, n);
    assert(full@ == without_self(text@));
    let ghost old_r = reexports_view(result@);
    match use_reexport_exec(full, false) {
        Some(r) => {
            result.push(r);
            assert(reexports_view(result@) =~= old_r + pub_use_reexports(text@));
        },
        None => {
            assert(reexports_view(result@) =~= old_r + pub_use_reexports(text@));
        },
    }
}

/// A line of a macro body with one `{` at its start and one `}` at its end
/// removed (the `}` only together with a `{`), and trimmed.
pub open spec fn unbrace_line(t: Seq<char>) -> Seq<char> {
    let a = match strip_prefix(t, "{"@) {
        Some(r) => r,
        None => t,
    };
    let b = match strip_suffix(a, "}"@) {
        Some(r) => r,
        None => t,
    };
    trim(b)
}

/// The module name declared by a `pub mod x;` or `pub(crate) mod x;` line.
pub open spec fn mod_decl_name(t: Seq<char>) -> Seq<char> {
    trim(
        trim_end_by(
            trim_start_seq(trim_start_seq(t, "pub(crate) mod "@), "pub mod "@),
            is_char(';'),
        ),
    )
}

/// The path of a `pub use ...;` line, without `self::`.
pub open spec fn line_use_path(t: Seq<char>) -> Seq<char> {
    without_self(trim(trim_end_by(trim_start_seq(t, "pub use "@), is_char(';'))))
}

/// The line declares a module.
pub open spec fn is_mod_line(t: Seq<char>) -> bool {
    (starts_with(t, "pub mod "@) || starts_with(t, "pub(crate) mod "@)) && ends_with(t, ";"@)
}

/// The line re-exports with `pub use`.
pub open spec fn is_use_line(t: Seq<char>) -> bool {
    starts_with(t, "pub use "@) && contains_seq(t, "::"@)
}

/// The re-exports that one line of a macro body adds.
pub open spec fn line_reexports(line: Seq<char>) -> Seq<BarrelReExportView> {
    let t0 = trim(line);
    if t0 == "{"@ || t0 == "}"@ {
        Seq::<BarrelReExportView>::empty()
    } else {
        let t = unbrace_line(t0);
        let name = mod_decl_name(t);
        let mods = if is_mod_line(t) && name.len() > 0 && !name.contains(' ') {
            seq![reexport_view(Seq::<Seq<char>>::empty(), name, true)]
        } else {
            Seq::<BarrelReExportView>::empty()
        };
        let uses = if is_use_line(t) {
            match use_reexport(line_use_path(t), true) {
                Some(r) => seq![r],
                None => Seq::<BarrelReExportView>::empty(),
            }
        } else {
            Seq::<BarrelReExportView>::empty()
        };
        mods + uses
    }
}

/// A line that can be read without that panic.
pub open spec fn line_ok(line: Seq<char>) -> bool {
    let t0 = trim(line);
    let t = unbrace_line(t0);
    !(t0 == "{"@ || t0 == "}"@) && is_use_line(t) ==> use_reexport_ok(line_use_path(t))
}

/// The re-exports of a sequence of lines, in order.
pub open spec fn lines_reexports(ls: Seq<Seq<char>>) -> Seq<BarrelReExportView>
    decreases ls.len(),
{
    if ls.len() == 0 {
        Seq::<BarrelReExportView>::empty()
    } else {
        lines_reexports(ls.drop_last()) + line_reexports(ls.last())
    }
}

/// Macro-body text whose lines can all be read without that panic.
pub open spec fn reexport_text_ok(text: Seq<char>) -> bool {
    forall|i: int| 0 <= i < lines(text).len() ==> line_ok(#[trigger] lines(text)[i])
}

fn trim_start_seq_exec(v: &[char], lit: &str) -> (r: Vec<char>)
    ensures
        r@ == trim_start_seq(v@, lit@),
{
    let p = chars_of(lit);
    let mut a: usize = 0;
    let n = v.len();
    assert(v@.skip(0) =~= v@);
    while a < n
        invariant
            a <= n,
            n == v@.len(),
            p@ == lit@,
            trim_start_seq(v@, lit@) == trim_start_seq(v@.skip(a as int), lit@),
        decreases n - a,
    {
        let rest = vstd::slice::slice_subrange(v, a, n);
        assert(rest@ == v@.skip(a as int));
        if p.len() > 0 && starts_with_chars(rest, p.as_slice()) {
            assert(rest@.skip(p@.len() as int) == v@.skip(a + p@.len()));
            a = a + p.len();
        } else {
            return slice_chars(v, a, n);
        }
    }
    assert(v@.skip(n as int) =~= Seq::<char>::empty());
    assert(v@.subrange(n as int, n as int) =~= Seq::<char>::empty());
    slice_chars(v, n, n)
}


fn line_reexports_exec(line: &[char], result: &mut Vec<BarrelReExport>)
    requires
        line_ok(line@),
    ensures
        reexports_view(final(result)@) == reexports_view(old(result)@) + line_reexports(line@),
{
    let ghost old_r = reexports_view(result@);
    let t0 = trim_exec(line);
    if eq_lit(t0.as_slice(), "{") || eq_lit(t0.as_slice(), "}") {
        assert(reexports_view(result@) =~= old_r + line_reexports(line@));
        return;
    }
    let n0 = t0.len();
    assert(t0@.subrange(0, n0 as int) == t0@);
    let a = match strip_prefix_range(t0.as_slice(), 0, n0, "{") {
        Some(k) => k,
        None => 0,
    };
    let (x, y) = match strip_suffix_range(t0.as_slice(), a, n0, "}") {
        Some(k) => (a, k),
        None => (0, n0),
    };
    let t = trim_exec(vstd::slice::slice_subrange(t0.as_slice(), x, y));
    assert(t@ == unbrace_line(t0@));
    let ts = t.as_slice();
    let ghost mods = if is_mod_line(t@) && mod_decl_name(t@).len() > 0 && !mod_decl_name(
        t@,
    ).contains(' ') {
        seq![reexport_view(Seq::<Seq<char>>::empty(), mod_decl_name(t@), true)]
    } else {
        Seq::<BarrelReExportView>::empty()
    };
    if (starts_with_lit(ts, "pub mod ") || starts_with_lit(ts, "pub(crate) mod "))
        && ends_with_lit(ts, ";") {
        let s1 = trim_start_seq_exec(ts, "pub(crate) mod ");
        let s2 = trim_start_seq_exec(s1.as_slice(), "pub mod ");
        let s3 = trim_end_char_exec(s2.as_slice(), ';');
        let name = trim_exec(s3.as_slice());
        assert(name@ == mod_decl_name(t@));
        if name.len() > 0 && !contains_char(name.as_slice(), ' ') {
            let empty: Vec<String> = Vec::new();
            assert(strings_view(empty@) =~= Seq::<Seq<char>>::empty());
            result.push(make_reexport(empty, name.as_slice(), true));
        }
    }
    assert(reexports_view(result@) =~= old_r + mods);
    let ghost mid = reexports_view(result@);
    if starts_with_lit(ts, "pub use ") && contains_lit(ts, "::") {
        let s1 = trim_start_seq_exec(ts, "pub use ");
        let s2 = trim_end_char_exec(s1.as_slice(), ';');
        let s3 = trim_exec(s2.as_slice());
        let n3 = s3.len();
        assert(s3@.subrange(0, n3 as int) == s3@);
        let b = match strip_prefix_range(s3.as_slice(), 0, n3, "self::") {
            Some(k) => k,
            None => 0,
        };
        let up = vstd::slice::slice_subrange(s3.as_slice(), b, n3);
        assert(up@ == line_use_path(t@));
        match use_reexport_exec(up, true) {
            Some(r) => {
                result.push(r);
                assert(reexports_view(result@) =~= mid.push(r@));
            },
            None => {},
        }
    }
    assert(reexports_view(result@) =~= old_r + line_reexports(line@));
}

/// Record the `pub mod` and `pub use` re-exports written in raw text (the
/// token tree of a cfg macro), one declaration per line.
pub fn extract_re_exports_from_text(text: &str, result: &mut Vec<BarrelReExport>)
    requires
        reexport_text_ok(text@),
    ensures
        reexports_view(final(result)@) == reexports_view(old(result)@) + lines_reexports(
            lines(text@),
        ),
{
    let v = chars_of(text);
    let ls = lines_exec(v.as_slice());
    let ghost lv = nested_view(ls@);
    let ghost old_r = reexports_view(result@);
    let mut i: usize = 0;
    while i < ls.len()
        invariant
            lv == nested_view(ls@),
            lv == lines(text@),
            reexport_text_ok(text@),
            i <= ls@.len(),
            reexports_view(result@) == old_r + lines_reexports(lv.take(i as int)),
        decreases ls@.len() - i,
    {
        assert(lv.take((i + 1) as int).drop_last() == lv.take(i as int));
        assert(lv.take((i + 1) as int).last() == lv[i as int]);
        assert(line_ok(lv[i as int]));
        let ghost before = reexports_view(result@);
        line_reexports_exec(ls[i].as_slice(), result);
        i = i + 1;
        assert(reexports_view(result@) =~= old_r + lines_reexports(lv.take(i as int)));
    }
    assert(lv.take(ls@.len() as int) == lv);
}

// ---------------------------------------------------------------------------
// Workspace support
// ---------------------------------------------------------------------------

/// The line is a `[workspace]` section header.
pub open spec fn is_workspace_header(line: Seq<char>) -> bool {
    trim(line) == "[workspace]"@
}

/// What `has_workspace_section` decides for the text of a `Cargo.toml`:
/// some line, trimmed, reads `[workspace]`.
pub open spec fn manifest_has_workspace(content: Seq<char>) -> bool {
    exists|i: int| 0 <= i < lines(content).len() && is_workspace_header(#[trigger] lines(content)[i])
}

/// Whether the text of a `Cargo.toml` contains a `[workspace]` section.
pub fn manifest_has_workspace_section(content: &str) -> (r: bool)
    ensures
        r == manifest_has_workspace(content@),
{
    let v = chars_of(content);
    let ls = lines_exec(v.as_slice());
    let ghost lv = nested_view(ls@);
    let mut i: usize = 0;
    while i < ls.len()
        invariant
            lv == nested_view(ls@),
            lv == lines(content@),
            i <= ls@.len(),
            forall|j: int| 0 <= j < i ==> !is_workspace_header(lv[j]),
        decreases ls@.len() - i,
    {
        let t = trim_exec(ls[i].as_slice());
        assert(ls@[i as int]@ == lv[i as int]);
        if eq_lit(t.as_slice(), "[workspace]") {
            assert(is_workspace_header(lines(content@)[i as int]));
            return true;
        }
        i = i + 1;
    }
    false
}

/// The value of a `name = "..."` (or `name = '...'`) line, without quotes.
pub open spec fn name_value(t: Seq<char>) -> Option<Seq<char>> {
    match strip_prefix(t, "name"@) {
        Some(rest) => match strip_prefix(trim(rest), "="@) {
            Some(r2) => {
                let r3 = trim(r2);
                match unquote(r3, '"') {
                    Some(inner) => Some(inner),
                    None => unquote(r3, '\''),
                }
            },
            None => None,
        },
        None => None,
    }
}

/// The text between the quote `q` at both ends.
pub open spec fn unquote(s: Seq<char>, q: char) -> Option<Seq<char>> {
    match strip_prefix(s, seq![q]) {
        Some(a) => strip_suffix(a, seq![q]),
        None => None,
    }
}

/// `s` with every `-` turned into `_`.
pub open spec fn hyphen_to_underscore(s: Seq<char>) -> Seq<char> {
    s.map_values(|c: char| if c == '-' { '_' } else { c })
}

/// The crate name found when reading `ls` from the top, `in_package`
/// telling whether a `[package]` header has been seen: the first `name`
/// value inside `[package]`, scanning stops at the next section header.
pub open spec fn crate_name_scan(ls: Seq<Seq<char>>, in_package: bool) -> Option<Seq<char>>
    decreases ls.len(),
{
    if ls.len() == 0 {
        None
    } else {
        let t = trim(ls[0]);
        if starts_with(t, "["@) {
            if t == "[package]"@ {
                crate_name_scan(ls.skip(1), true)
            } else if in_package {
                None
            } else {
                crate_name_scan(ls.skip(1), in_package)
            }
        } else if in_package && name_value(t) is Some {
            Some(hyphen_to_underscore(name_value(t)->0))
        } else {
            crate_name_scan(ls.skip(1), in_package)
        }
    }
}

/// What `parse_crate_name` finds in the text of a `Cargo.toml`.
pub open spec fn manifest_crate_name(content: Seq<char>) -> Option<Seq<char>> {
    crate_name_scan(lines(content), false)
}

fn unquote_exec(v: &[char], q: char) -> (r: Option<Vec<char>>)
    ensures
        match unquote(v@, q) {
            Some(x) => r matches Some(y) && y@ == x,
            None => r is None,
        },
{
    let n = v.len();
    if n >= 1 && v[0] == q {
        assert(v@.take(1) =~= seq![q]);
        assert(starts_with(v@, seq![q]));
        if n >= 2 && v[n - 1] == q {
            let inner = slice_chars(v, 1, n - 1);
            assert(v@.skip(1).take(v@.skip(1).len() - 1) =~= inner@);
            assert(v@.skip(1).skip(v@.skip(1).len() - 1) =~= seq![q]);
            assert(ends_with(v@.skip(1), seq![q]));
            return Some(inner);
        }
        assert(!ends_with(v@.skip(1), seq![q])) by {
            if ends_with(v@.skip(1), seq![q]) {
                assert(v@.skip(1).skip(v@.skip(1).len() - 1)[0] == v@[n - 1]);
            }
        }
        return None;
    }
    assert(!starts_with(v@, seq![q])) by {
        if starts_with(v@, seq![q]) {
            assert(v@.take(1)[0] == v@[0]);
        }
    }
    None
}

fn name_value_exec(t: &[char]) -> (r: Option<Vec<char>>)
    ensures
        match name_value(t@) {
            Some(x) => r matches Some(y) && y@ == x,
            None => r is None,
        },
{
    let n = t.len();
    assert(t@.subrange(0, n as int) == t@);
    let k = match strip_prefix_range(t, 0, n, "name") {
        Some(k) => k,
        None => return None,
    };
    let r1 = trim_exec(vstd::slice::slice_subrange(t, k, n));
    let m = r1.len();
    assert(r1@.subrange(0, m as int) == r1@);
    let k2 = match strip_prefix_range(r1.as_slice(), 0, m, "=") {
        Some(k2) => k2,
        None => return None,
    };
    let r3 = trim_exec(vstd::slice::slice_subrange(r1.as_slice(), k2, m));
    match unquote_exec(r3.as_slice(), '"') {
        Some(x) => Some(x),
        None => unquote_exec(r3.as_slice(), '\''),
    }
}

fn hyphen_to_underscore_exec(v: &[char]) -> (r: String)
    ensures
        r@ == hyphen_to_underscore(v@),
{
    let mut out: Vec<char> = Vec::new();
    let mut i: usize = 0;
    while i < v.len()
        invariant
            i <= v@.len(),
            out@ == hyphen_to_underscore(v@.take(i as int)),
        decreases v@.len() - i,
    {
        out.push(if v[i] == '-' { '_' } else { v[i] });
        i = i + 1;
        assert(out@ =~= hyphen_to_underscore(v@.take(i as int)));
    }
    assert(v@.take(v@.len() as int) == v@);
    string_of(out.as_slice())
}

/// The `name` of the `[package]` section of a `Cargo.toml` text, with
/// hyphens turned into underscores; `None` when there is no such name.
pub fn crate_name_from_manifest(content: &str) -> (r: Option<String>)
    ensures
        opt_string_view(r) == manifest_crate_name(content@),
{
    let v = chars_of(content);
    let ls = lines_exec(v.as_slice());
    let ghost lv = nested_view(ls@);
    let mut in_package = false;
    let mut i: usize = 0;
    assert(lv.skip(0) =~= lv);
    while i < ls.len()
        invariant
            lv == nested_view(ls@),
            lv == lines(content@),
            i <= ls@.len(),
            crate_name_scan(lv.skip(i as int), in_package) == manifest_crate_name(content@),
        decreases ls@.len() - i,
    {
        let t = trim_exec(ls[i].as_slice());
        let ghost rest = lv.skip(i as int);
        assert(rest[0] == ls@[i as int]@);
        assert(rest.skip(1) == lv.skip(i + 1));
        if starts_with_lit(t.as_slice(), "[") {
            if eq_lit(t.as_slice(), "[package]") {
                in_package = true;
            } else if in_package {
                return None;
            }
        } else if in_package {
            if let Some(name) = name_value_exec(t.as_slice()) {
                return Some(hyphen_to_underscore_exec(name.as_slice()));
            }
        }
        i = i + 1;
    }
    None
}

/// A member crate in a Cargo workspace.
pub struct WorkspaceMember {
    /// Crate name (hyphens converted to underscores).
    pub crate_name: String,
    /// Path to the member crate root (directory containing Cargo.toml).
    pub member_root: String,
}

/// The components of a path as `Path::components` lists them: the root
/// (written `/`) or a leading `.`, then the normal components.
pub open spec fn full_components(p: Seq<char>) -> Seq<Seq<char>> {
    let head = if p.len() > 0 && p[0] == '/' {
        seq![seq!['/']]
    } else if split_char(p, '/')[0] == seq!['.'] {
        seq![seq!['.']]
    } else {
        Seq::<Seq<char>>::empty()
    };
    head + components(p)
}

/// `Path::starts_with`: the components of `base` begin the components of
/// `p`.
pub open spec fn path_starts_with(p: Seq<char>, base: Seq<char>) -> bool {
    let a = full_components(p);
    let b = full_components(base);
    b.len() <= a.len() && a.take(b.len() as int) == b
}

/// The member chosen among the first `n` of `roots` for `p`: among those
/// whose root begins `p`, one with the most components, the last one on a
/// tie (`Iterator::max_by_key`).
pub open spec fn best_member(p: Seq<char>, roots: Seq<Seq<char>>, n: int) -> Option<int>
    decreases n,
{
    if n <= 0 {
        None
    } else {
        let prev = best_member(p, roots, n - 1);
        let i = n - 1;
        if path_starts_with(p, roots[i]) && (prev is None || full_components(roots[i]).len()
            >= full_components(roots[prev->0]).len()) {
            Some(i)
        } else {
            prev
        }
    }
}

/// The roots of the members.
pub open spec fn member_roots(members: Seq<WorkspaceMember>) -> Seq<Seq<char>> {
    members.map_values(|m: WorkspaceMember| m.member_root@)
}

fn full_components_exec(v: &[char]) -> (r: Vec<Vec<char>>)
    ensures
        nested_view(r@) == full_components(v@),
{
    let mut out: Vec<Vec<char>> = Vec::new();
    let pieces = split_char_exec(v, '/');
    proof {
        lemma_split_nonempty(v@, '/');
        reveal_strlit(".");
        assert("."@ =~= seq!['.']);
    }
    assert(pieces@[0]@ == nested_view(pieces@)[0]);
    if v.len() > 0 && v[0] == '/' {
        let mut h = Vec::new();
        h.push('/');
        assert(h@ =~= seq!['/']);
        out.push(h);
        assert(nested_view(out@) =~= seq![seq!['/']]);
    } else if eq_lit(pieces[0].as_slice(), ".") {
        let mut h = Vec::new();
        h.push('.');
        assert(h@ =~= seq!['.']);
        out.push(h);
        assert(nested_view(out@) =~= seq![seq!['.']]);
    } else {
        assert(nested_view(pieces@)[0] != seq!['.']);
        assert(nested_view(out@) =~= Seq::<Seq<char>>::empty());
    }
    let ghost head = nested_view(out@);
    let comps = crate::paths::component_ranges(v);
    let ghost cv = crate::paths::range_views(v@, comps@);
    let mut i: usize = 0;
    while i < comps.len()
        invariant
            crate::paths::ranges_ok(v@, comps@),
            cv == crate::paths::range_views(v@, comps@),
            cv == components(v@),
            i <= comps@.len(),
            nested_view(out@) == head + cv.take(i as int),
        decreases comps@.len() - i,
    {
        let (a, b) = comps[i];
        let piece = slice_chars(v, a, b);
        let ghost old_out = nested_view(out@);
        out.push(piece);
        assert(nested_view(out@) =~= old_out.push(piece@));
        i = i + 1;
        assert(nested_view(out@) =~= head + cv.take(i as int));
    }
    assert(cv.take(comps@.len() as int) == cv);
    out
}

fn components_prefix(a: &Vec<Vec<char>>, b: &Vec<Vec<char>>) -> (r: bool)
    ensures
        r == (nested_view(b@).len() <= nested_view(a@).len() && nested_view(a@).take(
            nested_view(b@).len() as int,
        ) == nested_view(b@)),
{
    if b.len() > a.len() {
        return false;
    }
    let mut i: usize = 0;
    while i < b.len()
        invariant
            b@.len() <= a@.len(),
            i <= b@.len(),
            forall|j: int| 0 <= j < i ==> nested_view(a@)[j] == nested_view(b@)[j],
        decreases b@.len() - i,
    {
        if !crate::text::eq_chars(a[i].as_slice(), b[i].as_slice()) {
            assert(nested_view(a@).take(b@.len() as int)[i as int] != nested_view(b@)[i as int]);
            return false;
        }
        i = i + 1;
    }
    assert(nested_view(a@).take(b@.len() as int) =~= nested_view(b@));
    true
}

/// The position of the workspace member that owns `path`: the member
/// whose root is a component-wise prefix of `path` with the most
/// components (the last such member on a tie).
pub fn member_index_for_path(path: &str, members: &[WorkspaceMember]) -> (r: Option<usize>)
    ensures
        match best_member(path@, member_roots(members@), members@.len() as int) {
            Some(i) => r == Some(i as usize) && 0 <= i < members@.len(),
            None => r is None,
        },
{
    let pc = full_components_exec(chars_of(path).as_slice());
    let mut best: Option<usize> = None;
    let mut best_len: usize = 0;
    let mut i: usize = 0;
    let ghost roots = member_roots(members@);
    while i < members.len()
        invariant
            roots == member_roots(members@),
            nested_view(pc@) == full_components(path@),
            i <= members@.len(),
            match best_member(path@, roots, i as int) {
                Some(k) => best == Some(k as usize) && 0 <= k < i && best_len
                    == full_components(roots[k]).len(),
                None => best is None,
            },
        decreases members@.len() - i,
    {
        let rc = full_components_exec(chars_of(members[i].member_root.as_str()).as_slice());
        assert(roots[i as int] == members@[i as int].member_root@);
        if components_prefix(&pc, &rc) {
            let n = rc.len();
            if best.is_none() || n >= best_len {
                best = Some(i);
                best_len = n;
            }
        }
        i = i + 1;
    }
    best
}

/// Find the workspace member that owns `path` by longest prefix match.
///
/// Returns `None` if no member's `member_root` is a prefix of `path`.
pub fn find_member_for_path<'a>(path: &str, members: &'a [WorkspaceMember]) -> (r: Option<
    &'a WorkspaceMember,
>)
    ensures
        match best_member(path@, member_roots(members@), members@.len() as int) {
            Some(i) => r matches Some(m) && 0 <= i < members@.len() && *m == members@[i],
            None => r is None,
        },
{
    match member_index_for_path(path, members) {
        Some(k) => Some(&members[k]),
        None => None,
    }
}

// ---------------------------------------------------------------------------
// Import specifiers from the syntax tree
// ---------------------------------------------------------------------------

/// The table after recording the argument text `full` of a `use`
/// declaration: paths under `crate::`, or under `{crate_name}::` when a
/// crate name is given, are recorded; others (external crates) are not.
pub open spec fn use_arg_update(
    full: Seq<char>,
    crate_name: Option<Seq<char>>,
    m: Seq<(Seq<char>, Seq<Seq<char>>)>,
) -> Seq<(Seq<char>, Seq<Seq<char>>)> {
    match strip_prefix(full, "crate::"@) {
        Some(rest) => use_path_update(rest, m),
        None => match crate_name {
            Some(n) => match strip_prefix(full, n + "::"@) {
                Some(rest) => use_path_update(rest, m),
                None => m,
            },
            None => m,
        },
    }
}

/// The argument text of a `use` declaration that can be recorded without
/// that panic.
pub open spec fn use_arg_ok(full: Seq<char>, crate_name: Option<Seq<char>>) -> bool {
    match strip_prefix(full, "crate::"@) {
        Some(rest) => use_path_ok(rest),
        None => match crate_name {
            Some(n) => match strip_prefix(full, n + "::"@) {
                Some(rest) => use_path_ok(rest),
                None => true,
            },
            None => true,
        },
    }
}

/// The argument node of the `use` declaration at `j`, if `j` is one.
pub open spec fn use_argument(t: Seq<SyntaxNodeView>, j: int) -> Option<int> {
    if t[j].kind == "use_declaration"@ {
        child_by_field(t, j, "argument"@)
    } else {
        None
    }
}

/// The table after the top-level items `ks` of listing `t`, in order.
pub open spec fn fold_uses(
    t: Seq<SyntaxNodeView>,
    ks: Seq<int>,
    crate_name: Option<Seq<char>>,
) -> Seq<(Seq<char>, Seq<Seq<char>>)>
    decreases ks.len(),
{
    if ks.len() == 0 {
        Seq::<(Seq<char>, Seq<Seq<char>>)>::empty()
    } else {
        let m = fold_uses(t, ks.drop_last(), crate_name);
        match use_argument(t, ks.last()) {
            Some(a) => use_arg_update(t[a].text, crate_name, m),
            None => m,
        }
    }
}

/// The specifier table of a Rust syntax tree: the top-level `use`
/// declarations, each recorded by [`use_arg_update`].
pub open spec fn rust_import_table(t: Seq<SyntaxNodeView>, crate_name: Option<Seq<char>>) -> Seq<
    (Seq<char>, Seq<Seq<char>>),
> {
    if t.len() == 0 {
        Seq::<(Seq<char>, Seq<Seq<char>>)>::empty()
    } else {
        fold_uses(t, kids(t, 0), crate_name)
    }
}

/// Every top-level `use` of listing `t` can be recorded without the panic
/// that slicing a malformed brace list raises.
pub open spec fn imports_ok(t: Seq<SyntaxNodeView>, crate_name: Option<Seq<char>>) -> bool {
    t.len() > 0 ==> forall|k: int|
        0 <= k < kids(t, 0).len() ==> (#[trigger] use_argument(t, kids(t, 0)[k]) matches Some(a)
            ==> use_arg_ok(t[a].text, crate_name))
}

fn use_arg_update_exec(
    full: &str,
    crate_name: Option<&str>,
    result: &mut Vec<(String, Vec<String>)>,
)
    requires
        use_arg_ok(full@, opt_view(crate_name)),
    ensures
        table_view(final(result)@) == use_arg_update(
            full@,
            opt_view(crate_name),
            table_view(old(result)@),
        ),
{
    let v = chars_of(full);
    let n = v.len();
    assert(v@.subrange(0, n as int) == v@);
    if let Some(k) = strip_prefix_range(v.as_slice(), 0, n, "crate::") {
        parse_use_path(full.substring_char(k, n), result);
        return;
    }
    if let Some(name) = crate_name {
        let mut prefix = String::from_str(name);
        prefix.append("::");
        if let Some(k) = strip_prefix_range(v.as_slice(), 0, n, prefix.as_str()) {
            parse_use_path(full.substring_char(k, n), result);
        }
    }
}

fn use_argument_exec(t: &Vec<SyntaxNode>, j: usize) -> (r: Option<usize>)
    requires
        j < t@.len(),
    ensures
        match r {
            Some(x) => use_argument(nodes_view(t@), j as int) == Some(x as int) && j < x < t@.len(),
            None => use_argument(nodes_view(t@), j as int) is None,
        },
{
    if kind_is(t, j, "use_declaration") {
        child_by_field_exec(t, j, "argument")
    } else {
        None
    }
}

/// The specifier table of the top-level `use` declarations of a Rust
/// syntax tree (`use crate::...`, and `use {crate_name}::...` when a crate
/// name is given).
pub fn import_specifiers_from_syntax(t: &Vec<SyntaxNode>, crate_name: Option<&str>) -> (r: Vec<
    (String, Vec<String>),
>)
    requires
        imports_ok(nodes_view(t@), opt_view(crate_name)),
    ensures
        table_view(r@) == rust_import_table(nodes_view(t@), opt_view(crate_name)),
{
    let ghost tv = nodes_view(t@);
    let ghost c = opt_view(crate_name);
    let mut result: Vec<(String, Vec<String>)> = Vec::new();
    if t.len() == 0 {
        assert(table_view(result@) =~= Seq::<(Seq<char>, Seq<Seq<char>>)>::empty());
        return result;
    }
    let ks = kids_exec(t, 0);
    let ghost kv = ks@.map_values(|k: usize| k as int);
    let mut x: usize = 0;
    assert(table_view(result@) =~= fold_uses(tv, kv.take(0), c));
    while x < ks.len()
        invariant
            tv == nodes_view(t@),
            kv == ks@.map_values(|k: usize| k as int),
            kv == kids(tv, 0),
            c == opt_view(crate_name),
            imports_ok(tv, c),
            t@.len() > 0,
            x <= ks@.len(),
            forall|k: int| 0 <= k < ks@.len() ==> 0 < #[trigger] ks@[k] < t@.len(),
            table_view(result@) == fold_uses(tv, kv.take(x as int), c),
        decreases ks@.len() - x,
    {
        let j = ks[x];
        assert(kv.take((x + 1) as int).drop_last() == kv.take(x as int));
        assert(kv.take((x + 1) as int).last() == j as int);
        assert(kv[x as int] == j as int);
        if let Some(a) = use_argument_exec(t, j) {
            assert(use_argument(tv, kids(tv, 0)[x as int]) == Some(a as int));
            let node = &t[a];
            assert(*node == t@[a as int]);
            assert(tv[a as int].text == node.text@);
            assert(use_arg_ok(tv[a as int].text, c));
            let txt = node.text.as_str();
            assert(txt@ == tv[a as int].text);
            use_arg_update_exec(txt, crate_name, &mut result);
        }
        x = x + 1;
    }
    assert(kv.take(ks@.len() as int) == kv);
    result
}

/// Whether every top-level `use` of the listing can be recorded.
fn imports_ok_exec(t: &Vec<SyntaxNode>, crate_name: Option<&str>) -> (r: bool)
    ensures
        r == imports_ok(nodes_view(t@), opt_view(crate_name)),
{
    let ghost tv = nodes_view(t@);
    let ghost c = opt_view(crate_name);
    if t.len() == 0 {
        return true;
    }
    let ks = kids_exec(t, 0);
    let ghost kv = ks@.map_values(|k: usize| k as int);
    let mut x: usize = 0;
    while x < ks.len()
        invariant
            tv == nodes_view(t@),
            kv == ks@.map_values(|k: usize| k as int),
            kv == kids(tv, 0),
            c == opt_view(crate_name),
            t@.len() > 0,
            x <= ks@.len(),
            forall|k: int| 0 <= k < ks@.len() ==> 0 < #[trigger] ks@[k] < t@.len(),
            forall|k: int| 0 <= k < x ==> (#[trigger] use_argument(tv, kv[k]) matches Some(a)
                ==> use_arg_ok(tv[a].text, c)),
        decreases ks@.len() - x,
    {
        let j = ks[x];
        assert(kv[x as int] == j as int);
        if let Some(a) = use_argument_exec(t, j) {
            let node = &t[a];
            assert(*node == t@[a as int]);
            assert(tv[a as int].text == node.text@);
            if !use_arg_ok_exec(node.text.as_str(), crate_name) {
                assert(!use_arg_ok(tv[a as int].text, c));
                assert(kids(tv, 0)[x as int] == j as int);
                assert(use_argument(tv, kids(tv, 0)[x as int]) == Some(a as int));
                return false;
            }
        }
        x = x + 1;
    }
    true
}

fn use_path_ok_exec(p: &[char]) -> (r: bool)
    ensures
        r == use_path_ok(p@),
{
    match find_char_exec(p, '{') {
        Some(bs) => {
            proof {
                lemma_find_char_props(p@, '{');
            }
            if brace_module_cut_exec(p, bs).is_none() {
                return false;
            }
            match find_char_exec(p, '}') {
                Some(be) => be > bs,
                None => true,
            }
        },
        None => true,
    }
}

fn use_arg_ok_exec(full: &str, crate_name: Option<&str>) -> (r: bool)
    ensures
        r == use_arg_ok(full@, opt_view(crate_name)),
{
    let v = chars_of(full);
    let n = v.len();
    assert(v@.subrange(0, n as int) == v@);
    if let Some(k) = strip_prefix_range(v.as_slice(), 0, n, "crate::") {
        return use_path_ok_exec(vstd::slice::slice_subrange(v.as_slice(), k, n));
    }
    if let Some(name) = crate_name {
        let mut prefix = String::from_str(name);
        prefix.append("::");
        if let Some(k) = strip_prefix_range(v.as_slice(), 0, n, prefix.as_str()) {
            return use_path_ok_exec(vstd::slice::slice_subrange(v.as_slice(), k, n));
        }
    }
    true
}

/// Extract import specifiers with optional crate name support.
/// When `crate_name` is `Some`, also resolves `use {crate_name}::...` imports
/// in addition to the standard `use crate::...` imports.  A source with a
/// brace list that cannot be sliced (see [`imports_ok`]) yields no
/// specifiers.
pub fn extract_import_specifiers_with_crate_name(source: &str, crate_name: Option<&str>) -> (r:
    Vec<(String, Vec<String>)>)
    ensures
        match rust_syntax(source@) {
            Some(t) => if imports_ok(t, opt_view(crate_name)) {
                table_view(r@) == rust_import_table(t, opt_view(crate_name))
            } else {
                r@.len() == 0
            },
            None => r@.len() == 0,
        },
{
    match parse_rust(source) {
        Some(t) => {
            if imports_ok_exec(&t, crate_name) {
                import_specifiers_from_syntax(&t, crate_name)
            } else {
                Vec::new()
            }
        },
        None => Vec::new(),
    }
}

// ---------------------------------------------------------------------------
// Barrel re-exports from the syntax tree
// ---------------------------------------------------------------------------

/// Among the children `ks` (in order), a `visibility_modifier` comes before
/// the first child that is neither an attribute nor a visibility modifier.
pub open spec fn pub_among(t: Seq<SyntaxNodeView>, ks: Seq<int>) -> bool
    decreases ks.len(),
{
    if ks.len() == 0 {
        false
    } else if t[ks[0]].kind == "visibility_modifier"@ {
        true
    } else if t[ks[0]].kind != "attribute_item"@ {
        false
    } else {
        pub_among(t, ks.skip(1))
    }
}

/// The item at `i` carries a visibility modifier (`pub`, `pub(crate)`, ...).
pub open spec fn has_pub_visibility(t: Seq<SyntaxNodeView>, i: int) -> bool {
    pub_among(t, kids(t, i))
}

/// The re-export that a `pub mod name;` declaration at `c` makes.
pub open spec fn mod_item_reexports(t: Seq<SyntaxNodeView>, c: int) -> Seq<BarrelReExportView> {
    if t[c].kind == "mod_item"@ && has_pub_visibility(t, c) && child_by_field(t, c, "body"@) is None
        && child_by_field(t, c, "name"@) is Some {
        seq![
            reexport_view(
                Seq::<Seq<char>>::empty(),
                t[child_by_field(t, c, "name"@)->0].text,
                true,
            ),
        ]
    } else {
        Seq::<BarrelReExportView>::empty()
    }
}

/// The argument of a `pub use` declaration at `c`.
pub open spec fn pub_use_argument(t: Seq<SyntaxNodeView>, c: int) -> Option<int> {
    if t[c].kind == "use_declaration"@ && has_pub_visibility(t, c) {
        child_by_field(t, c, "argument"@)
    } else {
        None
    }
}

/// The re-exports written inside the token trees `ks` of a macro call.
pub open spec fn token_tree_reexports(t: Seq<SyntaxNodeView>, ks: Seq<int>) -> Seq<
    BarrelReExportView,
>
    decreases ks.len(),
{
    if ks.len() == 0 {
        Seq::<BarrelReExportView>::empty()
    } else {
        let prev = token_tree_reexports(t, ks.drop_last());
        if t[ks.last()].kind == "token_tree"@ {
            prev + lines_reexports(lines(t[ks.last()].text))
        } else {
            prev
        }
    }
}

/// The re-exports that the top-level item at `c` makes.
pub open spec fn item_reexports(t: Seq<SyntaxNodeView>, c: int) -> Seq<BarrelReExportView> {
    let uses = match pub_use_argument(t, c) {
        Some(a) => pub_use_reexports(t[a].text),
        None => Seq::<BarrelReExportView>::empty(),
    };
    let macros = if t[c].kind == "macro_invocation"@ {
        token_tree_reexports(t, kids(t, c))
    } else {
        Seq::<BarrelReExportView>::empty()
    };
    mod_item_reexports(t, c) + uses + macros
}

/// The re-exports of the top-level items `ks`, in order.
pub open spec fn items_reexports(t: Seq<SyntaxNodeView>, ks: Seq<int>) -> Seq<BarrelReExportView>
    decreases ks.len(),
{
    if ks.len() == 0 {
        Seq::<BarrelReExportView>::empty()
    } else {
        items_reexports(t, ks.drop_last()) + item_reexports(t, ks.last())
    }
}

/// The re-exports of a barrel file's syntax tree: `pub mod x;`
/// declarations, `pub use` declarations and the `pub mod`/`pub use` lines
/// inside the token trees of top-level macro calls.
pub open spec fn barrel_reexports(t: Seq<SyntaxNodeView>) -> Seq<BarrelReExportView> {
    if t.len() == 0 {
        Seq::<BarrelReExportView>::empty()
    } else {
        items_reexports(t, kids(t, 0))
    }
}

/// Every re-export of the item at `c` can be read without the panic that
/// slicing a malformed brace list raises.
pub open spec fn item_ok(t: Seq<SyntaxNodeView>, c: int) -> bool {
    &&& (pub_use_argument(t, c) matches Some(a) ==> pub_use_text_ok(t[a].text))
    &&& (t[c].kind == "macro_invocation"@ ==> forall|k: int|
        0 <= k < kids(t, c).len() && t[kids(t, c)[k]].kind == "token_tree"@ ==> reexport_text_ok(
            t[#[trigger] kids(t, c)[k]].text,
        ))
}

/// Every top-level item of the tree can be read.
pub open spec fn barrel_ok(t: Seq<SyntaxNodeView>) -> bool {
    t.len() > 0 ==> forall|k: int| 0 <= k < kids(t, 0).len() ==> item_ok(t, #[trigger] kids(t, 0)[k])
}

/// Check if the node at `i` has a visibility modifier.
pub fn has_pub_visibility_exec(t: &Vec<SyntaxNode>, i: usize) -> (r: bool)
    requires
        i < t@.len(),
    ensures
        r == has_pub_visibility(nodes_view(t@), i as int),
{
    let ghost tv = nodes_view(t@);
    let ks = kids_exec(t, i);
    let ghost kv = ks@.map_values(|k: usize| k as int);
    let mut x: usize = 0;
    assert(kv.skip(0) =~= kv);
    while x < ks.len()
        invariant
            tv == nodes_view(t@),
            kv == ks@.map_values(|k: usize| k as int),
            kv == kids(tv, i as int),
            x <= ks@.len(),
            forall|k: int| 0 <= k < ks@.len() ==> i < #[trigger] ks@[k] < t@.len(),
            pub_among(tv, kv.skip(x as int)) == has_pub_visibility(tv, i as int),
        decreases ks@.len() - x,
    {
        let j = ks[x];
        assert(kv.skip(x as int)[0] == j as int);
        assert(kv.skip(x as int).skip(1) == kv.skip(x + 1));
        if kind_is(t, j, "visibility_modifier") {
            return true;
        }
        if !kind_is(t, j, "attribute_item") {
            return false;
        }
        x = x + 1;
    }
    false
}

fn pub_use_argument_exec(t: &Vec<SyntaxNode>, c: usize) -> (r: Option<usize>)
    requires
        c < t@.len(),
    ensures
        match r {
            Some(a) => pub_use_argument(nodes_view(t@), c as int) == Some(a as int) && a < t@.len(),
            None => pub_use_argument(nodes_view(t@), c as int) is None,
        },
{
    if kind_is(t, c, "use_declaration") && has_pub_visibility_exec(t, c) {
        child_by_field_exec(t, c, "argument")
    } else {
        None
    }
}

fn item_reexports_exec(t: &Vec<SyntaxNode>, c: usize, result: &mut Vec<BarrelReExport>)
    requires
        c < t@.len(),
        item_ok(nodes_view(t@), c as int),
    ensures
        reexports_view(final(result)@) == reexports_view(old(result)@) + item_reexports(
            nodes_view(t@),
            c as int,
        ),
{
    let ghost tv = nodes_view(t@);
    let ghost r0 = reexports_view(result@);
    if kind_is(t, c, "mod_item") && has_pub_visibility_exec(t, c) && child_by_field_exec(
        t,
        c,
        "body",
    ).is_none() {
        if let Some(nm) = child_by_field_exec(t, c, "name") {
            let empty: Vec<String> = Vec::new();
            assert(strings_view(empty@) =~= Seq::<Seq<char>>::empty());
            let node = &t[nm];
            assert(tv[nm as int].text == node.text@);
            let name = chars_of(node.text.as_str());
            let ghost before = reexports_view(result@);
            let r = make_reexport(empty, name.as_slice(), true);
            result.push(r);
            assert(reexports_view(result@) =~= before.push(r@));
        }
    }
    assert(reexports_view(result@) =~= r0 + mod_item_reexports(tv, c as int));
    let ghost r1 = reexports_view(result@);
    if let Some(a) = pub_use_argument_exec(t, c) {
        let node = &t[a];
        assert(tv[a as int].text == node.text@);
        extract_pub_use_re_exports(node.text.as_str(), result);
    }
    let ghost r2 = reexports_view(result@);
    assert(r2 == r1 + match pub_use_argument(tv, c as int) {
        Some(a) => pub_use_reexports(tv[a].text),
        None => Seq::<BarrelReExportView>::empty(),
    }) by {
        if pub_use_argument(tv, c as int) is None {
            assert(r2 =~= r1 + Seq::<BarrelReExportView>::empty());
        }
    }
    if kind_is(t, c, "macro_invocation") {
        let ks = kids_exec(t, c);
        let ghost kv = ks@.map_values(|k: usize| k as int);
        let mut x: usize = 0;
        assert(token_tree_reexports(tv, kv.take(0)) =~= Seq::<BarrelReExportView>::empty());
        assert(reexports_view(result@) =~= r2 + token_tree_reexports(tv, kv.take(0)));
        while x < ks.len()
            invariant
                tv == nodes_view(t@),
                c < t@.len(),
                tv[c as int].kind == "macro_invocation"@,
                item_ok(tv, c as int),
                kv == ks@.map_values(|k: usize| k as int),
                kv == kids(tv, c as int),
                x <= ks@.len(),
                forall|k: int| 0 <= k < ks@.len() ==> c < #[trigger] ks@[k] < t@.len(),
                reexports_view(result@) == r2 + token_tree_reexports(tv, kv.take(x as int)),
            decreases ks@.len() - x,
        {
            let j = ks[x];
            assert(kv.take((x + 1) as int).drop_last() == kv.take(x as int));
            assert(kv.take((x + 1) as int).last() == j as int);
            assert(kv[x as int] == j as int);
            let ghost before = reexports_view(result@);
            if kind_is(t, j, "token_tree") {
                let node = &t[j];
                assert(tv[j as int].text == node.text@);
                assert(reexport_text_ok(tv[kids(tv, c as int)[x as int]].text));
                extract_re_exports_from_text(node.text.as_str(), result);
                assert(reexports_view(result@) =~= r2 + token_tree_reexports(
                    tv,
                    kv.take((x + 1) as int),
                ));
            }
            x = x + 1;
        }
        assert(kv.take(ks@.len() as int) == kv);
    } else {
        assert(reexports_view(result@) =~= r2 + Seq::<BarrelReExportView>::empty());
    }
    assert(reexports_view(result@) =~= r0 + item_reexports(tv, c as int));
}

/// The re-exports of a barrel file's syntax tree.
pub fn barrel_reexports_from_syntax(t: &Vec<SyntaxNode>) -> (r: Vec<BarrelReExport>)
    requires
        barrel_ok(nodes_view(t@)),
    ensures
        reexports_view(r@) == barrel_reexports(nodes_view(t@)),
{
    let ghost tv = nodes_view(t@);
    let mut result: Vec<BarrelReExport> = Vec::new();
    if t.len() == 0 {
        assert(reexports_view(result@) =~= Seq::<BarrelReExportView>::empty());
        return result;
    }
    let ks = kids_exec(t, 0);
    let ghost kv = ks@.map_values(|k: usize| k as int);
    let mut x: usize = 0;
    assert(reexports_view(result@) =~= items_reexports(tv, kv.take(0)));
    while x < ks.len()
        invariant
            tv == nodes_view(t@),
            t@.len() > 0,
            barrel_ok(tv),
            kv == ks@.map_values(|k: usize| k as int),
            kv == kids(tv, 0),
            x <= ks@.len(),
            forall|k: int| 0 <= k < ks@.len() ==> 0 < #[trigger] ks@[k] < t@.len(),
            reexports_view(result@) == items_reexports(tv, kv.take(x as int)),
        decreases ks@.len() - x,
    {
        let j = ks[x];
        assert(kv.take((x + 1) as int).drop_last() == kv.take(x as int));
        assert(kv.take((x + 1) as int).last() == j as int);
        assert(kv[x as int] == j as int);
        assert(item_ok(tv, kids(tv, 0)[x as int]));
        item_reexports_exec(t, j, &mut result);
        x = x + 1;
    }
    assert(kv.take(ks@.len() as int) == kv);
    result
}

fn use_reexport_ok_exec(v: &[char]) -> (r: bool)
    ensures
        r == use_reexport_ok(v@),
{
    if eq_lit(v, "*") || ends_with_lit(v, "::*") {
        true
    } else {
        use_path_ok_exec(v)
    }
}

fn pub_use_text_ok_exec(text: &str) -> (r: bool)
    ensures
        r == pub_use_text_ok(text@),
{
    let v = chars_of(text);
    let n = v.len();
    assert(v@.subrange(0, n as int) == v@);
    let a = match strip_prefix_range(v.as_slice(), 0, n, "self::") {
        Some(k) => k,
        None => 0,
    };
    use_reexport_ok_exec(vstd::slice::slice_subrange(v.as_slice(), a, n))
}

fn line_ok_exec(line: &[char]) -> (r: bool)
    ensures
        r == line_ok(line@),
{
    let t0 = trim_exec(line);
    if eq_lit(t0.as_slice(), "{") || eq_lit(t0.as_slice(), "}") {
        return true;
    }
    let n0 = t0.len();
    assert(t0@.subrange(0, n0 as int) == t0@);
    let a = match strip_prefix_range(t0.as_slice(), 0, n0, "{") {
        Some(k) => k,
        None => 0,
    };
    let (x, y) = match strip_suffix_range(t0.as_slice(), a, n0, "}") {
        Some(k) => (a, k),
        None => (0, n0),
    };
    let t = trim_exec(vstd::slice::slice_subrange(t0.as_slice(), x, y));
    assert(t@ == unbrace_line(t0@));
    let ts = t.as_slice();
    if starts_with_lit(ts, "pub use ") && contains_lit(ts, "::") {
        let s1 = trim_start_seq_exec(ts, "pub use ");
        let s2 = trim_end_char_exec(s1.as_slice(), ';');
        let s3 = trim_exec(s2.as_slice());
        let n3 = s3.len();
        assert(s3@.subrange(0, n3 as int) == s3@);
        let b = match strip_prefix_range(s3.as_slice(), 0, n3, "self::") {
            Some(k) => k,
            None => 0,
        };
        let up = vstd::slice::slice_subrange(s3.as_slice(), b, n3);
        assert(up@ == line_use_path(t@));
        use_reexport_ok_exec(up)
    } else {
        true
    }
}

fn reexport_text_ok_exec(text: &str) -> (r: bool)
    ensures
        r == reexport_text_ok(text@),
{
    let v = chars_of(text);
    let ls = lines_exec(v.as_slice());
    let ghost lv = nested_view(ls@);
    let mut i: usize = 0;
    while i < ls.len()
        invariant
            lv == nested_view(ls@),
            lv == lines(text@),
            i <= ls@.len(),
            forall|j: int| 0 <= j < i ==> line_ok(#[trigger] lv[j]),
        decreases ls@.len() - i,
    {
        assert(ls@[i as int]@ == lv[i as int]);
        if !line_ok_exec(ls[i].as_slice()) {
            return false;
        }
        i = i + 1;
    }
    true
}

fn item_ok_exec(t: &Vec<SyntaxNode>, c: usize) -> (r: bool)
    requires
        c < t@.len(),
    ensures
        r == item_ok(nodes_view(t@), c as int),
{
    let ghost tv = nodes_view(t@);
    if let Some(a) = pub_use_argument_exec(t, c) {
        let node = &t[a];
        assert(tv[a as int].text == node.text@);
        if !pub_use_text_ok_exec(node.text.as_str()) {
            return false;
        }
    }
    if kind_is(t, c, "macro_invocation") {
        let ks = kids_exec(t, c);
        let ghost kv = ks@.map_values(|k: usize| k as int);
        let mut x: usize = 0;
        while x < ks.len()
            invariant
                tv == nodes_view(t@),
                c < t@.len(),
                tv[c as int].kind == "macro_invocation"@,
                kv == ks@.map_values(|k: usize| k as int),
                kv == kids(tv, c as int),
                x <= ks@.len(),
                forall|k: int| 0 <= k < ks@.len() ==> c < #[trigger] ks@[k] < t@.len(),
                forall|k: int|
                    0 <= k < x && tv[kv[k]].kind == "token_tree"@ ==> reexport_text_ok(
                        tv[#[trigger] kv[k]].text,
                    ),
            decreases ks@.len() - x,
        {
            let j = ks[x];
            assert(kv[x as int] == j as int);
            if kind_is(t, j, "token_tree") {
                let node = &t[j];
                assert(tv[j as int].text == node.text@);
                if !reexport_text_ok_exec(node.text.as_str()) {
                    assert(kids(tv, c as int)[x as int] == j as int);
                    assert(!reexport_text_ok(tv[kids(tv, c as int)[x as int]].text));
                    return false;
                }
            }
            x = x + 1;
        }
    }
    true
}

fn barrel_ok_exec(t: &Vec<SyntaxNode>) -> (r: bool)
    ensures
        r == barrel_ok(nodes_view(t@)),
{
    let ghost tv = nodes_view(t@);
    if t.len() == 0 {
        return true;
    }
    let ks = kids_exec(t, 0);
    let ghost kv = ks@.map_values(|k: usize| k as int);
    let mut x: usize = 0;
    while x < ks.len()
        invariant
            tv == nodes_view(t@),
            kv == ks@.map_values(|k: usize| k as int),
            kv == kids(tv, 0),
            t@.len() > 0,
            x <= ks@.len(),
            forall|k: int| 0 <= k < ks@.len() ==> 0 < #[trigger] ks@[k] < t@.len(),
            forall|k: int| 0 <= k < x ==> item_ok(tv, #[trigger] kv[k]),
        decreases ks@.len() - x,
    {
        let j = ks[x];
        assert(kv[x as int] == j as int);
        if !item_ok_exec(t, j) {
            assert(!item_ok(tv, kids(tv, 0)[x as int]));
            return false;
        }
        x = x + 1;
    }
    true
}

/// The re-exports of a Rust barrel source: empty unless `file_path` names
/// a `mod.rs` or `lib.rs`, or when the source holds a brace list that
/// cannot be sliced (see [`barrel_ok`]).
pub fn barrel_re_exports(source: &str, is_barrel: bool) -> (r: Vec<BarrelReExport>)
    ensures
        !is_barrel ==> r@.len() == 0,
        is_barrel ==> match rust_syntax(source@) {
            Some(t) => if barrel_ok(t) {
                reexports_view(r@) == barrel_reexports(t)
            } else {
                r@.len() == 0
            },
            None => r@.len() == 0,
        },
{
    if !is_barrel {
        return Vec::new();
    }
    match parse_rust(source) {
        Some(t) => if barrel_ok_exec(&t) {
            barrel_reexports_from_syntax(&t)
        } else {
            Vec::new()
        },
        None => Vec::new(),
    }
}

// ---------------------------------------------------------------------------
// Inline tests
// ---------------------------------------------------------------------------

/// Some child among `ks` (from position `x` on) is an identifier `name`.
pub open spec fn has_identifier(t: Seq<SyntaxNodeView>, ks: Seq<int>, name: Seq<char>) -> bool {
    exists|x: int| 0 <= x < ks.len() && t[ks[x]].kind == "identifier"@ && t[ks[x]].text == name
}

/// The node at `a` is an attribute `#[cfg(...)]` whose argument list holds
/// the identifier `test` at its top level (`#[cfg(test)]`, not
/// `#[cfg(not(test))]`).
pub open spec fn is_cfg_test_attr(t: Seq<SyntaxNodeView>, a: int) -> bool {
    if t[a].kind != "attribute_item"@ {
        false
    } else {
        match named_child(t, a, 0) {
            Some(b) => t[b].kind == "attribute"@ && match named_child(t, b, 0) {
                Some(n) => t[n].kind == "identifier"@ && t[n].text == "cfg"@ && match child_by_field(
                    t,
                    b,
                    "arguments"@,
                ) {
                    Some(g) => t[g].kind == "token_tree"@ && has_identifier(t, kids(t, g), "test"@),
                    None => false,
                },
                None => false,
            },
            None => false,
        }
    }
}

/// Among the siblings `ks` from position `x` on, past any further
/// attributes, the next item is a module.
pub open spec fn mod_follows(t: Seq<SyntaxNodeView>, ks: Seq<int>, x: int) -> bool
    decreases ks.len() - x,
{
    if x < 0 || x >= ks.len() {
        false
    } else if t[ks[x]].kind == "mod_item"@ {
        true
    } else if t[ks[x]].kind == "attribute_item"@ {
        mod_follows(t, ks, x + 1)
    } else {
        false
    }
}

/// Some child of node `p` is a `#[cfg(test)]` attribute on a module.
pub open spec fn has_cfg_test_mod(t: Seq<SyntaxNodeView>, p: int) -> bool {
    let ks = kids(t, p);
    exists|x: int| 0 <= x < ks.len() && is_cfg_test_attr(t, ks[x]) && mod_follows(t, ks, x + 1)
}

/// A Rust syntax tree holds a `#[cfg(test)]` module.
pub open spec fn has_inline_tests(t: Seq<SyntaxNodeView>) -> bool {
    exists|p: int| 0 <= p < t.len() && has_cfg_test_mod(t, p)
}

fn has_identifier_exec(t: &Vec<SyntaxNode>, g: usize, name: &str) -> (r: bool)
    requires
        g < t@.len(),
    ensures
        r == has_identifier(nodes_view(t@), kids(nodes_view(t@), g as int), name@),
{
    let ghost tv = nodes_view(t@);
    let ks = kids_exec(t, g);
    let ghost kv = ks@.map_values(|k: usize| k as int);
    let mut x: usize = 0;
    while x < ks.len()
        invariant
            tv == nodes_view(t@),
            kv == ks@.map_values(|k: usize| k as int),
            kv == kids(tv, g as int),
            x <= ks@.len(),
            forall|k: int| 0 <= k < ks@.len() ==> #[trigger] ks@[k] < t@.len(),
            forall|y: int|
                0 <= y < x ==> !(tv[kv[y]].kind == "identifier"@ && tv[kv[y]].text == name@),
        decreases ks@.len() - x,
    {
        let k = ks[x];
        let kt = chars_of(t[k].text.as_str());
        if kind_is(t, k, "identifier") && eq_lit(kt.as_slice(), name) {
            assert(kv[x as int] == k as int);
            return true;
        }
        x = x + 1;
    }
    false
}

fn is_cfg_test_attr_exec(t: &Vec<SyntaxNode>, a: usize) -> (r: bool)
    requires
        a < t@.len(),
    ensures
        r == is_cfg_test_attr(nodes_view(t@), a as int),
{
    if !kind_is(t, a, "attribute_item") {
        return false;
    }
    let b = match named_child_exec(t, a, 0) {
        Some(b) => b,
        None => {
            return false;
        },
    };
    if !kind_is(t, b, "attribute") {
        return false;
    }
    let n = match named_child_exec(t, b, 0) {
        Some(n) => n,
        None => {
            return false;
        },
    };
    let nt = chars_of(t[n].text.as_str());
    if !(kind_is(t, n, "identifier") && eq_lit(nt.as_slice(), "cfg")) {
        return false;
    }
    match child_by_field_exec(t, b, "arguments") {
        Some(g) => kind_is(t, g, "token_tree") && has_identifier_exec(t, g, "test"),
        None => false,
    }
}

fn has_cfg_test_mod_exec(t: &Vec<SyntaxNode>, p: usize) -> (r: bool)
    requires
        p < t@.len(),
    ensures
        r == has_cfg_test_mod(nodes_view(t@), p as int),
{
    let ghost tv = nodes_view(t@);
    let ks = kids_exec(t, p);
    let ghost kv = ks@.map_values(|k: usize| k as int);
    let mut x: usize = 0;
    while x < ks.len()
        invariant
            tv == nodes_view(t@),
            kv == ks@.map_values(|k: usize| k as int),
            kv == kids(tv, p as int),
            x <= ks@.len(),
            forall|k: int| 0 <= k < ks@.len() ==> #[trigger] ks@[k] < t@.len(),
            forall|y: int|
                0 <= y < x ==> !(is_cfg_test_attr(tv, kv[y]) && mod_follows(tv, kv, y + 1)),
        decreases ks@.len() - x,
    {
        if is_cfg_test_attr_exec(t, ks[x]) {
            // Scan the following siblings past attributes.
            let mut y = x + 1;
            while y < ks.len() && kind_is(t, ks[y], "attribute_item")
                invariant
                    tv == nodes_view(t@),
                    kv == ks@.map_values(|k: usize| k as int),
                    x < y <= ks@.len(),
                    forall|k: int| 0 <= k < ks@.len() ==> #[trigger] ks@[k] < t@.len(),
                    mod_follows(tv, kv, x + 1) == mod_follows(tv, kv, y as int),
                decreases ks@.len() - y,
            {
                assert(kv[y as int] == ks@[y as int] as int);
                proof {
                    reveal_strlit("attribute_item");
                    reveal_strlit("mod_item");
                }
                assert(tv[kv[y as int]].kind == "attribute_item"@);
                assert("attribute_item"@.len() == 14 && "mod_item"@.len() == 8);
                assert(mod_follows(tv, kv, y as int) == mod_follows(tv, kv, y + 1));
                y = y + 1;
            }
            if y < ks.len() && kind_is(t, ks[y], "mod_item") {
                assert(is_cfg_test_attr(tv, kv[x as int]) && mod_follows(tv, kv, x + 1));
                return true;
            }
        }
        x = x + 1;
    }
    false
}

/// Whether the syntax tree `t` holds a `#[cfg(test)]` module.
pub fn inline_tests_in(t: &Vec<SyntaxNode>) -> (r: bool)
    ensures
        r == has_inline_tests(nodes_view(t@)),
{
    let ghost tv = nodes_view(t@);
    let mut p: usize = 0;
    while p < t.len()
        invariant
            tv == nodes_view(t@),
            p <= t@.len(),
            forall|q: int| 0 <= q < p ==> !has_cfg_test_mod(tv, q),
        decreases t@.len() - p,
    {
        if has_cfg_test_mod_exec(t, p) {
            assert(0 <= p < tv.len() && has_cfg_test_mod(tv, p as int));
            return true;
        }
        p = p + 1;
    }
    false
}

/// Whether `source` holds a `#[cfg(test)]` module (further attributes may
/// stand between the attribute and the `mod`).
pub fn detect_inline_tests(source: &str) -> (r: bool)
    ensures
        r == match rust_syntax(source@) {
            Some(t) => has_inline_tests(t),
            None => false,
        },
{
    match parse_rust(source) {
        Some(t) => inline_tests_in(&t),
        None => false,
    }
}

// ---------------------------------------------------------------------------
// Exported symbols (`pub` items)
// ---------------------------------------------------------------------------

/// Among the children `ks` (in order), the visibility modifier that comes
/// before the first child that is neither an attribute nor a visibility
/// modifier reads exactly `pub` (not `pub(crate)`, `pub(super)`, ...).
pub open spec fn pub_only_among(t: Seq<SyntaxNodeView>, ks: Seq<int>) -> bool
    decreases ks.len(),
{
    if ks.len() == 0 {
        false
    } else if t[ks[0]].kind == "visibility_modifier"@ {
        t[ks[0]].text == "pub"@
    } else if t[ks[0]].kind != "attribute_item"@ {
        false
    } else {
        pub_only_among(t, ks.skip(1))
    }
}

/// The kinds of item that a file exports by name: functions, structs,
/// enums, unions, traits, type aliases, constants and statics.
pub open spec fn is_exportable_item(kind: Seq<char>) -> bool {
    kind == "function_item"@ || kind == "struct_item"@ || kind == "enum_item"@ || kind
        == "union_item"@ || kind == "trait_item"@ || kind == "type_item"@ || kind == "const_item"@
        || kind == "static_item"@
}

/// The name of the item at `i` when it is an exportable item whose
/// visibility is exactly `pub`.
pub open spec fn pub_only_item_name(t: Seq<SyntaxNodeView>, i: int) -> Option<Seq<char>> {
    if is_exportable_item(t[i].kind) && pub_only_among(t, kids(t, i)) {
        match child_by_field(t, i, "name"@) {
            Some(n) => Some(t[n].text),
            None => None,
        }
    } else {
        None
    }
}

fn pub_only_exec(t: &Vec<SyntaxNode>, i: usize) -> (r: bool)
    requires
        i < t@.len(),
    ensures
        r == pub_only_among(nodes_view(t@), kids(nodes_view(t@), i as int)),
{
    let ghost tv = nodes_view(t@);
    let ks = kids_exec(t, i);
    let ghost kv = ks@.map_values(|k: usize| k as int);
    let mut x: usize = 0;
    assert(kv.skip(0) =~= kv);
    while x < ks.len()
        invariant
            tv == nodes_view(t@),
            kv == ks@.map_values(|k: usize| k as int),
            kv == kids(tv, i as int),
            x <= ks@.len(),
            forall|k: int| 0 <= k < ks@.len() ==> i < #[trigger] ks@[k] < t@.len(),
            pub_only_among(tv, kv.skip(x as int)) == pub_only_among(tv, kids(tv, i as int)),
        decreases ks@.len() - x,
    {
        let j = ks[x];
        assert(kv.skip(x as int)[0] == j as int);
        assert(kv.skip(x as int).skip(1) == kv.skip(x + 1));
        if kind_is(t, j, "visibility_modifier") {
            let v = chars_of(t[j].text.as_str());
            return eq_lit(v.as_slice(), "pub");
        }
        if !kind_is(t, j, "attribute_item") {
            return false;
        }
        x = x + 1;
    }
    false
}

fn pub_only_item_name_exec(t: &Vec<SyntaxNode>, i: usize) -> (r: Option<String>)
    requires
        i < t@.len(),
    ensures
        opt_string_view(r) == pub_only_item_name(nodes_view(t@), i as int),
{
    let exportable = kind_is(t, i, "function_item") || kind_is(t, i, "struct_item") || kind_is(
        t,
        i,
        "enum_item",
    ) || kind_is(t, i, "union_item") || kind_is(t, i, "trait_item") || kind_is(t, i, "type_item")
        || kind_is(t, i, "const_item") || kind_is(t, i, "static_item");
    if !exportable || !pub_only_exec(t, i) {
        return None;
    }
    match child_by_field_exec(t, i, "name") {
        Some(n) => Some(t[n].text.clone()),
        None => None,
    }
}

/// Whether a Rust source exports any of `symbols`: whether an item whose
/// visibility is exactly `pub` bears one of their names.  An empty list of
/// symbols, or a source that cannot be parsed, counts as exported.
pub fn rust_exports_any_symbol(source: &str, symbols: &Vec<String>) -> (r: bool)
    ensures
        symbols@.len() == 0 ==> r,
        symbols@.len() > 0 ==> match rust_syntax(source@) {
            Some(t) => r == exists|i: int, k: int|
                0 <= i < t.len() && 0 <= k < symbols@.len() && #[trigger] pub_only_item_name(t, i)
                    == Some(#[trigger] symbols@[k]@),
            None => r,
        },
{
    if symbols.len() == 0 {
        return true;
    }
    match parse_rust(source) {
        Some(t) => {
            let ghost tv = nodes_view(t@);
            let mut i: usize = 0;
            while i < t.len()
                invariant
                    tv == nodes_view(t@),
                    rust_syntax(source@) == Some(tv),
                    i <= t@.len(),
                    forall|a: int, k: int|
                        0 <= a < i && 0 <= k < symbols@.len() ==> #[trigger] pub_only_item_name(tv, a)
                            != Some(#[trigger] symbols@[k]@),
                decreases t@.len() - i,
            {
                match pub_only_item_name_exec(&t, i) {
                    Some(name) => {
                        let mut k: usize = 0;
                        while k < symbols.len()
                            invariant
                                tv == nodes_view(t@),
                                rust_syntax(source@) == Some(tv),
                                i < t@.len(),
                                k <= symbols@.len(),
                                pub_only_item_name(tv, i as int) == Some(name@),
                                forall|q: int| 0 <= q < k ==> symbols@[q]@ != name@,
                            decreases symbols@.len() - k,
                        {
                            if symbols[k] == name {
                                assert(pub_only_item_name(tv, i as int) == Some(symbols@[k as int]@));
                                return true;
                            }
                            k = k + 1;
                        }
                    },
                    None => {},
                }
                i = i + 1;
            }
            false
        },
        None => true,
    }
}

// ---------------------------------------------------------------------------
// Workspace members
// ---------------------------------------------------------------------------

/// One directory entry met while looking for workspace members, in the
/// order of a depth-first walk from the scan root: each entry is followed
/// by the entries below it.
pub struct DirEntry {
    /// The entry's path.
    pub path: String,
    /// The entry's file name, when it is valid Unicode.
    pub name: Option<String>,
    /// How many directories lie between the scan root and the entry (0 for
    /// the entries of the scan root itself).
    pub depth: usize,
    /// The entry is a directory.
    pub is_dir: bool,
    /// The entry's path is the scan root.
    pub is_scan_root: bool,
    /// The text of the entry's `Cargo.toml`, when it has one that could be
    /// read.
    pub manifest: Option<String>,
}

/// The mathematical content of a [`DirEntry`].
pub struct DirEntryView {
    pub path: Seq<char>,
    pub name: Option<Seq<char>>,
    pub depth: usize,
    pub is_dir: bool,
    pub is_scan_root: bool,
    pub manifest: Option<Seq<char>>,
}

impl View for DirEntry {
    type V = DirEntryView;

    open spec fn view(&self) -> DirEntryView {
        DirEntryView {
            path: self.path@,
            name: opt_string_view(self.name),
            depth: self.depth,
            is_dir: self.is_dir,
            is_scan_root: self.is_scan_root,
            manifest: opt_string_view(self.manifest),
        }
    }
}

/// The views of a directory listing.
pub open spec fn entries_view(v: Seq<DirEntry>) -> Seq<DirEntryView> {
    v.map_values(|e: DirEntry| e@)
}

/// The deepest level whose entries the search reads.
pub open spec fn max_traverse_depth() -> usize {
    4
}

/// The deepest level whose entries the search for workspace members reads
/// (see [`max_traverse_depth`]).
pub fn traverse_depth_limit() -> (r: usize)
    ensures
        r == max_traverse_depth(),
{
    4
}

/// A directory name that the search never enters: hidden (`.git`) or one
/// of `target`, `.cargo`, `vendor`.
pub open spec fn skipped_dir_name(name: Seq<char>) -> bool {
    starts_with(name, "."@) || name == "target"@ || name == ".cargo"@ || name == "vendor"@
}

/// The entry is a directory that the search looks into.
pub open spec fn entry_visited(e: DirEntryView) -> bool {
    &&& e.is_dir
    &&& e.name matches Some(n)
    &&& !skipped_dir_name(n)
    &&& !e.is_scan_root
}

/// The crate that the entry's manifest names in its `[package]` section.
pub open spec fn entry_crate(e: DirEntryView) -> Option<Seq<char>> {
    match e.manifest {
        Some(m) => manifest_crate_name(m),
        None => None,
    }
}

/// The state of the search after the first `n` entries: the members found
/// so far, and the depth below which entries are ignored (the entries
/// under a directory that was not entered).
pub open spec fn members_upto(es: Seq<DirEntryView>, n: int) -> (Seq<(Seq<char>, Seq<char>)>, Option<
    usize,
>)
    decreases n,
{
    if n <= 0 {
        (Seq::<(Seq<char>, Seq<char>)>::empty(), None)
    } else {
        let (ms, cut) = members_upto(es, n - 1);
        let e = es[n - 1];
        if cut matches Some(c) && e.depth > c {
            (ms, cut)
        } else if e.depth > max_traverse_depth() || !entry_visited(e) {
            (ms, Some(e.depth))
        } else {
            match entry_crate(e) {
                Some(name) => (ms.push((name, e.path)), Some(e.depth)),
                None => (ms, None),
            }
        }
    }
}

/// The members of the workspace: none unless the root manifest has a
/// `[workspace]` section; otherwise each directory entered whose
/// `Cargo.toml` names a package (the search does not enter it further), in
/// the order met.
pub open spec fn workspace_members(root_manifest: Option<Seq<char>>, es: Seq<DirEntryView>) -> Seq<
    (Seq<char>, Seq<char>),
> {
    match root_manifest {
        Some(m) => if manifest_has_workspace(m) {
            members_upto(es, es.len() as int).0
        } else {
            Seq::<(Seq<char>, Seq<char>)>::empty()
        },
        None => Seq::<(Seq<char>, Seq<char>)>::empty(),
    }
}

/// The view of a list of workspace members as (crate name, root) pairs.
pub open spec fn members_view(v: Seq<WorkspaceMember>) -> Seq<(Seq<char>, Seq<char>)> {
    v.map_values(|m: WorkspaceMember| (m.crate_name@, m.member_root@))
}

fn skipped_dir_name_exec(name: &str) -> (r: bool)
    ensures
        r == skipped_dir_name(name@),
{
    let v = chars_of(name);
    starts_with_lit(v.as_slice(), ".") || eq_lit(v.as_slice(), "target") || eq_lit(
        v.as_slice(),
        ".cargo",
    ) || eq_lit(v.as_slice(), "vendor")
}

fn entry_visited_exec(e: &DirEntry) -> (r: bool)
    ensures
        r == entry_visited(e@),
{
    if !e.is_dir || e.is_scan_root {
        return false;
    }
    match &e.name {
        Some(n) => !skipped_dir_name_exec(n.as_str()),
        None => false,
    }
}

fn entry_crate_exec(e: &DirEntry) -> (r: Option<String>)
    ensures
        opt_string_view(r) == entry_crate(e@),
{
    match &e.manifest {
        Some(m) => crate_name_from_manifest(m.as_str()),
        None => None,
    }
}

/// Find the member crates of a Cargo workspace from the text of the root
/// `Cargo.toml` (`None` when it cannot be read) and the directory walk
/// below the root: with a `[workspace]` section, every directory reached
/// (not hidden, not `target`, `.cargo` or `vendor`, at most five levels
/// below the root: entries of depth 0 to 4) whose `Cargo.toml` names a
/// package, with hyphens of the name turned into underscores.
pub fn find_workspace_members(root_manifest: Option<&str>, entries: &Vec<DirEntry>) -> (r: Vec<
    WorkspaceMember,
>)
    ensures
        members_view(r@) == workspace_members(opt_view(root_manifest), entries_view(entries@)),
{
    let ghost ev = entries_view(entries@);
    let mut out: Vec<WorkspaceMember> = Vec::new();
    let is_workspace = match root_manifest {
        Some(m) => manifest_has_workspace_section(m),
        None => false,
    };
    if !is_workspace {
        assert(members_view(out@) =~= Seq::<(Seq<char>, Seq<char>)>::empty());
        return out;
    }
    let mut cut: Option<usize> = None;
    let mut i: usize = 0;
    assert(members_view(out@) =~= members_upto(ev, 0).0);
    while i < entries.len()
        invariant
            ev == entries_view(entries@),
            i <= entries@.len(),
            members_view(out@) == members_upto(ev, i as int).0,
            cut == members_upto(ev, i as int).1,
        decreases entries@.len() - i,
    {
        let e = &entries[i];
        assert(ev[i as int] == e@);
        let ghost before = members_view(out@);
        let skipped = match cut {
            Some(c) => e.depth > c,
            None => false,
        };
        if skipped {
        } else if e.depth > traverse_depth_limit() || !entry_visited_exec(e) {
            cut = Some(e.depth);
        } else {
            match entry_crate_exec(e) {
                Some(name) => {
                    let ghost nv = name@;
                    out.push(WorkspaceMember { crate_name: name, member_root: e.path.clone() });
                    assert(members_view(out@) =~= before.push((nv, e.path@)));
                    cut = Some(e.depth);
                },
                None => {
                    cut = None;
                },
            }
        }
        i = i + 1;
    }
    out
}


// ---------------------------------------------------------------------------
// Production functions
// ---------------------------------------------------------------------------

/// Where the function item at `f` stands: at the top level of the file or
/// of a module body (`Some(None)`), directly in an `impl` body
/// (`Some(Some(type))`), or elsewhere (`None`: trait bodies, nested
/// functions).
pub open spec fn rs_function_class(t: Seq<SyntaxNodeView>, f: int) -> Option<Option<Seq<char>>> {
    match parent_of(t, f) {
        Some(q) => if t[q].kind == "source_file"@ {
            Some(None)
        } else if t[q].kind == "declaration_list"@ {
            match parent_of(t, q) {
                Some(c) => if t[c].kind == "mod_item"@ {
                    Some(None)
                } else if t[c].kind == "impl_item"@ {
                    match child_by_field(t, c, "type"@) {
                        Some(ty) => Some(Some(t[ty].text)),
                        None => None,
                    }
                } else {
                    None
                },
                None => None,
            }
        } else {
            None
        },
        None => None,
    }
}

/// The byte `b` lies in one of the ranges `rs`.
pub open spec fn in_ranges(rs: Seq<(usize, usize)>, b: usize) -> bool {
    exists|k: int| 0 <= k < rs.len() && (#[trigger] rs[k]).0 <= b < rs[k].1
}

/// The production function that the node at `f` defines, if any: a
/// function or method outside the `#[cfg(test)]` modules, exported when it
/// carries a visibility modifier.
pub open spec fn rs_function_at(t: Seq<SyntaxNodeView>, f: int, file: Seq<char>) -> Option<
    ProductionFunctionView,
> {
    if t[f].kind == "function_item"@ {
        match (child_by_field(t, f, "name"@), rs_function_class(t, f)) {
            (Some(n), Some(c)) => if in_ranges(cfg_test_ranges(t), t[f].start_byte) {
                None
            } else {
                Some(
                    ProductionFunctionView {
                        name: t[n].text,
                        file: file,
                        line: line_of(t[n].row),
                        class_name: c,
                        is_exported: has_pub_visibility(t, f),
                    },
                )
            },
            _ => None,
        }
    } else {
        None
    }
}

/// The production functions among the first `n` nodes, each name and
/// type once.
pub open spec fn rs_functions_upto(t: Seq<SyntaxNodeView>, file: Seq<char>, n: int) -> Seq<
    ProductionFunctionView,
>
    decreases n,
{
    if n <= 0 {
        Seq::<ProductionFunctionView>::empty()
    } else {
        let prev = rs_functions_upto(t, file, n - 1);
        match rs_function_at(t, n - 1, file) {
            Some(f) => add_function(prev, f),
            None => prev,
        }
    }
}

/// The functions and `impl` methods of a Rust syntax tree outside its
/// `#[cfg(test)]` modules, in source order, each name and type once.
pub open spec fn rs_production_functions(t: Seq<SyntaxNodeView>, file: Seq<char>) -> Seq<
    ProductionFunctionView,
> {
    rs_functions_upto(t, file, t.len() as int)
}

fn rs_function_class_exec(t: &Vec<SyntaxNode>, f: usize) -> (r: Option<Option<String>>)
    requires
        f < t@.len(),
    ensures
        match r {
            Some(c) => rs_function_class(nodes_view(t@), f as int) == Some(opt_string_view(c)),
            None => rs_function_class(nodes_view(t@), f as int) is None,
        },
{
    let q = match parent_exec(t, f) {
        Some(q) => q,
        None => {
            return None;
        },
    };
    if kind_is(t, q, "source_file") {
        return Some(None);
    }
    if !kind_is(t, q, "declaration_list") {
        return None;
    }
    match parent_exec(t, q) {
        Some(c) => {
            if kind_is(t, c, "mod_item") {
                Some(None)
            } else if kind_is(t, c, "impl_item") {
                match child_by_field_exec(t, c, "type") {
                    Some(ty) => Some(Some(t[ty].text.clone())),
                    None => None,
                }
            } else {
                None
            }
        },
        None => None,
    }
}

fn in_ranges_exec(rs: &Vec<(usize, usize)>, b: usize) -> (r: bool)
    ensures
        r == in_ranges(rs@, b),
{
    let mut k: usize = 0;
    while k < rs.len()
        invariant
            k <= rs@.len(),
            forall|j: int| 0 <= j < k ==> !((#[trigger] rs@[j]).0 <= b < rs@[j].1),
        decreases rs@.len() - k,
    {
        if rs[k].0 <= b && b < rs[k].1 {
            return true;
        }
        k = k + 1;
    }
    false
}

fn cfg_test_ranges_of(t: &Vec<SyntaxNode>) -> (r: Vec<(usize, usize)>)
    ensures
        r@ == cfg_test_ranges(nodes_view(t@)),
{
    let ghost tv = nodes_view(t@);
    let mut out: Vec<(usize, usize)> = Vec::new();
    let mut i: usize = 0;
    while i < t.len()
        invariant
            tv == nodes_view(t@),
            i <= t@.len(),
            out@ == cfg_test_ranges_upto(tv, i as int),
        decreases t@.len() - i,
    {
        if is_cfg_test_attr_exec(t, i) {
            match next_mod_sibling_exec(t, i) {
                Some(m) => {
                    out.push((t[m].start_byte, t[m].end_byte));
                },
                None => {},
            }
        }
        i = i + 1;
    }
    out
}

/// The production functions of a Rust syntax tree (see
/// [`rs_production_functions`]).
pub fn production_functions_from_syntax(t: &Vec<SyntaxNode>, file: &str) -> (r: Vec<
    ProductionFunction,
>)
    ensures
        functions_view(r@) == rs_production_functions(nodes_view(t@), file@),
{
    let ghost tv = nodes_view(t@);
    let ranges = cfg_test_ranges_of(t);
    let mut out: Vec<ProductionFunction> = Vec::new();
    let mut i: usize = 0;
    while i < t.len()
        invariant
            tv == nodes_view(t@),
            ranges@ == cfg_test_ranges(tv),
            i <= t@.len(),
            functions_view(out@) == rs_functions_upto(tv, file@, i as int),
        decreases t@.len() - i,
    {
        if kind_is(t, i, "function_item") {
            match child_by_field_exec(t, i, "name") {
                Some(n) => match rs_function_class_exec(t, i) {
                    Some(c) => {
                        if !in_ranges_exec(&ranges, t[i].start_byte) {
                            let f = ProductionFunction {
                                name: t[n].text.clone(),
                                file: String::from_str(file),
                                line: t[n].row.saturating_add(1),
                                class_name: c,
                                is_exported: has_pub_visibility_exec(t, i),
                            };
                            add_function_exec(&mut out, f);
                        }
                    },
                    None => {},
                },
                None => {},
            }
        }
        i = i + 1;
    }
    out
}


// ---------------------------------------------------------------------------
// Test-module ranges
// ---------------------------------------------------------------------------

/// The first module among the later siblings of node `a`, scanning from
/// position `j`.
pub open spec fn next_mod_sibling(t: Seq<SyntaxNodeView>, a: int, j: int) -> Option<int>
    decreases t.len() - j,
{
    if j < 0 || j >= t.len() || t[j].depth < t[a].depth {
        None
    } else if t[j].depth == t[a].depth && t[j].kind == "mod_item"@ {
        Some(j)
    } else {
        next_mod_sibling(t, a, j + 1)
    }
}

/// The byte ranges of the modules that `#[cfg(test)]` attributes among the
/// first `n` nodes mark: for each such attribute, the next module among
/// its later siblings.
pub open spec fn cfg_test_ranges_upto(t: Seq<SyntaxNodeView>, n: int) -> Seq<(usize, usize)>
    decreases n,
{
    if n <= 0 {
        Seq::<(usize, usize)>::empty()
    } else {
        let prev = cfg_test_ranges_upto(t, n - 1);
        if is_cfg_test_attr(t, n - 1) {
            match next_mod_sibling(t, n - 1, n) {
                Some(m) => prev.push((t[m].start_byte, t[m].end_byte)),
                None => prev,
            }
        } else {
            prev
        }
    }
}

/// The byte ranges of the `#[cfg(test)]` modules of a Rust syntax tree.
pub open spec fn cfg_test_ranges(t: Seq<SyntaxNodeView>) -> Seq<(usize, usize)> {
    cfg_test_ranges_upto(t, t.len() as int)
}

fn next_mod_sibling_exec(t: &Vec<SyntaxNode>, a: usize) -> (r: Option<usize>)
    requires
        a < t@.len(),
    ensures
        match r {
            Some(m) => next_mod_sibling(nodes_view(t@), a as int, a + 1) == Some(m as int) && m
                < t@.len(),
            None => next_mod_sibling(nodes_view(t@), a as int, a + 1) is None,
        },
{
    let ghost tv = nodes_view(t@);
    let d = t[a].depth;
    let n = t.len();
    let mut j = a + 1;
    while j < t.len() && t[j].depth >= d
        invariant
            tv == nodes_view(t@),
            a < j <= t@.len(),
            d == tv[a as int].depth,
            next_mod_sibling(tv, a as int, a + 1) == next_mod_sibling(tv, a as int, j as int),
        decreases t@.len() - j,
    {
        if t[j].depth == d && kind_is(t, j, "mod_item") {
            return Some(j);
        }
        j = j + 1;
    }
    None
}

/// Find the byte ranges of the `#[cfg(test)]` modules of `source` (see
/// [`cfg_test_ranges`]); none when the parser gives no tree.
pub fn find_cfg_test_ranges(source: &str) -> (r: Vec<(usize, usize)>)
    ensures
        r@ == match rust_syntax(source@) {
            Some(t) => cfg_test_ranges(t),
            None => Seq::<(usize, usize)>::empty(),
        },
{
    let t = match parse_rust(source) {
        Some(t) => t,
        None => {
            return Vec::new();
        },
    };
    let ghost tv = nodes_view(t@);
    let mut out: Vec<(usize, usize)> = Vec::new();
    let mut i: usize = 0;
    while i < t.len()
        invariant
            tv == nodes_view(t@),
            i <= t@.len(),
            out@ == cfg_test_ranges_upto(tv, i as int),
        decreases t@.len() - i,
    {
        if is_cfg_test_attr_exec(&t, i) {
            match next_mod_sibling_exec(&t, i) {
                Some(m) => {
                    out.push((t[m].start_byte, t[m].end_byte));
                },
                None => {},
            }
        }
        i = i + 1;
    }
    out
}


// ---------------------------------------------------------------------------
// Laws
// ---------------------------------------------------------------------------

/// A file is never both a production file and a test file: a path with a
/// production stem has no test stem.
pub proof fn law_production_is_not_test(path: Seq<char>)
    requires
        rs_production_stem(path) is Some,
    ensures
        rs_test_stem(path) is None,
{
}

/// Barrels (`mod.rs`, `lib.rs`) and the entry point `main.rs` are never
/// production files of their own.
pub proof fn law_barrel_has_no_production_stem(path: Seq<char>)
    requires
        file_name(path) == Some("mod.rs"@) || file_name(path) == Some("lib.rs"@) || file_name(
            path,
        ) == Some("main.rs"@),
    ensures
        rs_production_stem(path) is None,
{
    reveal_strlit("mod.rs");
    reveal_strlit("lib.rs");
    reveal_strlit("main.rs");
    reveal_strlit(".rs");
    reveal_strlit("mod");
    reveal_strlit("lib");
    reveal_strlit("main");
    let name = file_name(path)->0;
    assert(name.subrange(name.len() - 3, name.len() as int) =~= ".rs"@);
    assert(strip_suffix(name, ".rs"@) == Some(name.take(name.len() - 3)));
    let stem = name.take(name.len() - 3);
    assert(stem =~= "mod"@ || stem =~= "lib"@ || stem =~= "main"@);
}

/// A crate name read from a manifest never holds a hyphen: hyphens of the
/// package name become underscores.
pub proof fn law_crate_name_has_no_hyphen(content: Seq<char>)
    requires
        manifest_crate_name(content) is Some,
    ensures
        !manifest_crate_name(content)->0.contains('-'),
{
    lemma_crate_name_scan(lines(content), false);
}

proof fn lemma_crate_name_scan(ls: Seq<Seq<char>>, in_package: bool)
    ensures
        crate_name_scan(ls, in_package) matches Some(n) ==> !n.contains('-'),
    decreases ls.len(),
{
    if ls.len() > 0 {
        lemma_crate_name_scan(ls.skip(1), true);
        lemma_crate_name_scan(ls.skip(1), in_package);
        let t = trim(ls[0]);
        if !starts_with(t, "["@) && in_package && name_value(t) is Some {
            let n = hyphen_to_underscore(name_value(t)->0);
            assert forall|i: int| 0 <= i < n.len() implies n[i] != '-' by {}
        }
    }
}

/// The member that owns a path is a member whose root begins the path,
/// and no other member whose root begins the path has a longer root
/// (longest-prefix match); among roots of equal length the last member
/// wins.
pub proof fn law_member_longest_prefix(p: Seq<char>, roots: Seq<Seq<char>>, j: int)
    requires
        0 <= j < roots.len(),
        path_starts_with(p, roots[j]),
    ensures
        best_member(p, roots, roots.len() as int) is Some,
        ({
            let i = best_member(p, roots, roots.len() as int)->0;
            &&& 0 <= i < roots.len()
            &&& path_starts_with(p, roots[i])
            &&& full_components(roots[j]).len() <= full_components(roots[i]).len()
            &&& full_components(roots[j]).len() == full_components(roots[i]).len() ==> j <= i
        }),
{
    lemma_best_member(p, roots, roots.len() as int, j);
}

proof fn lemma_best_member(p: Seq<char>, roots: Seq<Seq<char>>, n: int, j: int)
    requires
        0 <= n <= roots.len(),
    ensures
        best_member(p, roots, n) matches Some(i) ==> 0 <= i < n && path_starts_with(p, roots[i]),
        0 <= j < n && path_starts_with(p, roots[j]) ==> (best_member(p, roots, n) matches Some(i)
            && full_components(roots[j]).len() <= full_components(roots[i]).len() && (
        full_components(roots[j]).len() == full_components(roots[i]).len() ==> j <= i)),
    decreases n,
{
    if n > 0 {
        lemma_best_member(p, roots, n - 1, j);
    }
}

/// A path that no member's root begins belongs to no member.
pub proof fn law_member_none(p: Seq<char>, roots: Seq<Seq<char>>)
    requires
        forall|j: int| 0 <= j < roots.len() ==> !path_starts_with(p, #[trigger] roots[j]),
    ensures
        best_member(p, roots, roots.len() as int) is None,
{
    if best_member(p, roots, roots.len() as int) is Some {
        lemma_best_member(p, roots, roots.len() as int, 0);
    }
}


/// Recording a use path keeps one entry per specifier.
pub proof fn law_use_path_keeps_keys_unique(p: Seq<char>, m: Seq<(Seq<char>, Seq<Seq<char>>)>)
    requires
        keys_unique(m),
    ensures
        keys_unique(use_path_update(p, m)),
{
    match find_char(p, '{') {
        Some(bs) => {
            let spec = replace_seq(p.take(brace_module_cut(p, bs)->0), "::"@, "/"@);
            if let Some(be) = find_char(p, '}') {
                lemma_table_extend_unique(m, spec, list_symbols(p.subrange(bs + 1, be), true));
            }
        },
        None => match strip_suffix(p, "::*"@) {
            Some(module_part) => {
                lemma_table_extend_unique(m, replace_seq(module_part, "::"@, "/"@), Seq::<Seq<char>>::empty());
            },
            None => {
                lemma_table_extend_unique(m, p, Seq::<Seq<char>>::empty());
                let parts = split_seq(p, "::"@);
                if parts.len() >= 2 {
                    lemma_table_extend_unique(m, join_seq(parts.drop_last(), "/"@), seq![parts.last()]);
                }
            },
        },
    }
}

proof fn lemma_fold_uses_unique(t: Seq<SyntaxNodeView>, ks: Seq<int>, crate_name: Option<Seq<char>>)
    ensures
        keys_unique(fold_uses(t, ks, crate_name)),
    decreases ks.len(),
{
    if ks.len() > 0 {
        lemma_fold_uses_unique(t, ks.drop_last(), crate_name);
        let m = fold_uses(t, ks.drop_last(), crate_name);
        if let Some(a) = use_argument(t, ks.last()) {
            let full = t[a].text;
            if let Some(rest) = strip_prefix(full, "crate::"@) {
                law_use_path_keeps_keys_unique(rest, m);
            } else if let Some(n) = crate_name {
                if let Some(rest) = strip_prefix(full, n + "::"@) {
                    law_use_path_keeps_keys_unique(rest, m);
                }
            }
        }
    }
}

/// The import table of a Rust source lists each specifier once.
pub proof fn law_import_table_keys_unique(t: Seq<SyntaxNodeView>, crate_name: Option<Seq<char>>)
    ensures
        keys_unique(rust_import_table(t, crate_name)),
{
    if t.len() > 0 {
        lemma_fold_uses_unique(t, kids(t, 0), crate_name);
    }
}


/// The file-name convention pairs a test file `test_X.rs` with a
/// production file `X.rs`, whatever their directories: both give the stem
/// `X` (for a plain, non-empty name `X` that is not test-like, not a
/// barrel, entry point or build script, and a production file outside any
/// `tests/` directory).
pub proof fn law_test_and_production_share_stem(test_dir: Seq<char>, prod_dir: Seq<char>, x: Seq<char>)
    requires
        x.len() > 0,
        !x.contains('/'),
        !starts_with(x, "test_"@),
        !ends_with(x, "_test"@),
        x != "lib"@,
        x != "mod"@,
        x != "main"@,
        x != "build"@,
        !under_tests_dir(backslash_to_slash(prod_dir + seq!['/'] + (x + ".rs"@))),
    ensures
        rs_test_stem(test_dir + seq!['/'] + ("test_"@ + x + ".rs"@)) == Some(x),
        rs_production_stem(prod_dir + seq!['/'] + (x + ".rs"@)) == Some(x),
{
    reveal_strlit("test_");
    reveal_strlit(".rs");
    reveal_strlit("build.rs");
    reveal_strlit("build");
    let tn = "test_"@ + x + ".rs"@;
    let pn = x + ".rs"@;
    assert(!tn.contains('/')) by {
        if tn.contains('/') {
            let i = choose|i: int| 0 <= i < tn.len() && tn[i] == '/';
            if 5 <= i < 5 + x.len() {
                assert(x[i - 5] == '/');
                assert(x.contains('/'));
            }
        }
    }
    assert(!pn.contains('/')) by {
        if pn.contains('/') {
            let i = choose|i: int| 0 <= i < pn.len() && pn[i] == '/';
            if i < x.len() {
                assert(x[i] == '/');
                assert(x.contains('/'));
            }
        }
    }
    assert(tn != seq!['.'] && tn != seq!['.', '.']) by {
        assert(tn.len() >= 8);
    }
    assert(pn != seq!['.'] && pn != seq!['.', '.']) by {
        assert(pn.len() >= 4);
    }
    crate::paths::lemma_file_name_join(test_dir, tn);
    crate::paths::lemma_file_name_join(prod_dir, pn);
    assert(tn.skip(tn.len() - 3) =~= ".rs"@);
    assert(tn.take(tn.len() - 3) =~= "test_"@ + x);
    assert(("test_"@ + x).take(5) =~= "test_"@);
    assert(("test_"@ + x).skip(5) =~= x);
    assert(pn.skip(pn.len() - 3) =~= ".rs"@);
    assert(pn.take(pn.len() - 3) =~= x);
    assert(pn != "build.rs"@) by {
        if pn == "build.rs"@ {
            assert(pn.take(pn.len() - 3) =~= "build"@);
        }
    }
}



proof fn lemma_mod_follows(t: Seq<SyntaxNodeView>, ks: Seq<int>, x: int)
    requires
        mod_follows(t, ks, x),
    ensures
        exists|y: int| x <= y < ks.len() && t[#[trigger] ks[y]].kind == "mod_item"@,
    decreases ks.len() - x,
{
    if t[ks[x]].kind != "mod_item"@ {
        lemma_mod_follows(t, ks, x + 1);
    }
}

proof fn lemma_next_mod_found(t: Seq<SyntaxNodeView>, a: int, j: int, m: int)
    requires
        0 <= a < t.len(),
        0 <= j <= m < t.len(),
        t[m].depth == t[a].depth,
        t[m].kind == "mod_item"@,
        forall|k: int| j <= k < m ==> #[trigger] t[k].depth >= t[a].depth,
    ensures
        next_mod_sibling(t, a, j) is Some,
    decreases m - j,
{
    if j < m && !(t[j].depth == t[a].depth && t[j].kind == "mod_item"@) {
        lemma_next_mod_found(t, a, j + 1, m);
    }
}

proof fn lemma_ranges_grow(t: Seq<SyntaxNodeView>, n: int, m: int)
    requires
        n <= m,
    ensures
        cfg_test_ranges_upto(t, n).len() <= cfg_test_ranges_upto(t, m).len(),
    decreases m - n,
{
    if n < m {
        lemma_ranges_grow(t, n, m - 1);
    }
}

/// A tree in which a `#[cfg(test)]` module is detected gives at least one
/// `#[cfg(test)]` byte range.
pub proof fn law_inline_tests_have_ranges(t: Seq<SyntaxNodeView>)
    requires
        has_inline_tests(t),
    ensures
        cfg_test_ranges(t).len() > 0,
{
    let p = choose|p: int| 0 <= p < t.len() && has_cfg_test_mod(t, p);
    let ks = kids(t, p);
    let x = choose|x: int| 0 <= x < ks.len() && is_cfg_test_attr(t, ks[x]) && mod_follows(t, ks, x + 1);
    lemma_kids(t, p);
    lemma_mod_follows(t, ks, x + 1);
    let y = choose|y: int| x + 1 <= y < ks.len() && t[#[trigger] ks[y]].kind == "mod_item"@;
    let a = ks[x];
    let m = ks[y];
    assert(a < m);
    assert forall|k: int| a + 1 <= k < m implies #[trigger] t[k].depth >= t[a].depth by {
        assert(p < k < subtree_end(t, p));
    }
    lemma_next_mod_found(t, a, a + 1, m);
    assert(cfg_test_ranges_upto(t, a + 1).len() == cfg_test_ranges_upto(t, a).len() + 1);
    lemma_ranges_grow(t, a + 1, t.len() as int);
}

/// A path belongs to a member only when that member's root begins it.
pub proof fn law_member_owner_prefixes(p: Seq<char>, roots: Seq<Seq<char>>)
    ensures
        best_member(p, roots, roots.len() as int) matches Some(i) ==> 0 <= i < roots.len()
            && path_starts_with(p, roots[i]),
{
    lemma_best_member(p, roots, roots.len() as int, 0);
}


/// The shape of every Rust re-export: a specifier under `./`, never a
/// namespace wildcard, and no symbols listed for a wildcard.
pub open spec fn rust_reexport_shape(r: BarrelReExportView) -> bool {
    &&& starts_with(r.from_specifier, "./"@)
    &&& !r.namespace_wildcard
    &&& (r.wildcard ==> r.symbols.len() == 0)
}

/// Every re-export of `rs` has that shape.
pub open spec fn all_reexport_shape(rs: Seq<BarrelReExportView>) -> bool {
    forall|i: int| 0 <= i < rs.len() ==> rust_reexport_shape(#[trigger] rs[i])
}

proof fn lemma_shape_concat(a: Seq<BarrelReExportView>, b: Seq<BarrelReExportView>)
    requires
        all_reexport_shape(a),
        all_reexport_shape(b),
    ensures
        all_reexport_shape(a + b),
{
    assert forall|i: int| 0 <= i < (a + b).len() implies rust_reexport_shape(#[trigger] (a + b)[i]) by {
        if i < a.len() {
            assert((a + b)[i] == a[i]);
        } else {
            assert((a + b)[i] == b[i - a.len()]);
        }
    }
}

proof fn lemma_reexport_view_shape(symbols: Seq<Seq<char>>, tail: Seq<char>, wildcard: bool)
    requires
        wildcard ==> symbols.len() == 0,
    ensures
        rust_reexport_shape(reexport_view(symbols, tail, wildcard)),
{
    reveal_strlit("./");
    assert(("./"@ + tail).take(2) =~= "./"@);
}

proof fn lemma_use_reexport_shape(full: Seq<char>, drop_star: bool)
    ensures
        use_reexport(full, drop_star) matches Some(r) ==> rust_reexport_shape(r),
{
    if full == "*"@ {
        lemma_reexport_view_shape(Seq::<Seq<char>>::empty(), Seq::<char>::empty(), true);
    } else if ends_with(full, "::*"@) {
        lemma_reexport_view_shape(
            Seq::<Seq<char>>::empty(),
            replace_seq(strip_suffix(full, "::*"@)->0, "::"@, "/"@),
            true,
        );
    } else {
        match find_char(full, '{') {
            Some(bs) => match find_char(full, '}') {
                Some(be) => {
                    lemma_reexport_view_shape(
                        list_symbols(full.subrange(bs + 1, be), drop_star),
                        replace_seq(full.take(brace_module_cut(full, bs)->0), "::"@, "/"@),
                        false,
                    );
                },
                None => {},
            },
            None => {
                let parts = split_seq(full, "::"@);
                if parts.len() >= 2 {
                    lemma_reexport_view_shape(
                        seq![parts.last()],
                        join_seq(parts.drop_last(), "/"@),
                        false,
                    );
                }
            },
        }
    }
}

proof fn lemma_line_shape(line: Seq<char>)
    ensures
        all_reexport_shape(line_reexports(line)),
{
    let t0 = trim(line);
    if !(t0 == "{"@ || t0 == "}"@) {
        let t = unbrace_line(t0);
        let name = mod_decl_name(t);
        lemma_reexport_view_shape(Seq::<Seq<char>>::empty(), name, true);
        lemma_use_reexport_shape(line_use_path(t), true);
        let mods = if is_mod_line(t) && name.len() > 0 && !name.contains(' ') {
            seq![reexport_view(Seq::<Seq<char>>::empty(), name, true)]
        } else {
            Seq::<BarrelReExportView>::empty()
        };
        let uses = if is_use_line(t) {
            match use_reexport(line_use_path(t), true) {
                Some(r) => seq![r],
                None => Seq::<BarrelReExportView>::empty(),
            }
        } else {
            Seq::<BarrelReExportView>::empty()
        };
        assert(all_reexport_shape(mods));
        assert(all_reexport_shape(uses));
        lemma_shape_concat(mods, uses);
    }
}

proof fn lemma_lines_shape(ls: Seq<Seq<char>>)
    ensures
        all_reexport_shape(lines_reexports(ls)),
    decreases ls.len(),
{
    if ls.len() > 0 {
        lemma_lines_shape(ls.drop_last());
        lemma_line_shape(ls.last());
        lemma_shape_concat(lines_reexports(ls.drop_last()), line_reexports(ls.last()));
    }
}

proof fn lemma_token_trees_shape(t: Seq<SyntaxNodeView>, ks: Seq<int>)
    ensures
        all_reexport_shape(token_tree_reexports(t, ks)),
    decreases ks.len(),
{
    if ks.len() > 0 {
        lemma_token_trees_shape(t, ks.drop_last());
        if t[ks.last()].kind == "token_tree"@ {
            lemma_lines_shape(lines(t[ks.last()].text));
            lemma_shape_concat(
                token_tree_reexports(t, ks.drop_last()),
                lines_reexports(lines(t[ks.last()].text)),
            );
        }
    }
}

proof fn lemma_items_shape(t: Seq<SyntaxNodeView>, ks: Seq<int>)
    ensures
        all_reexport_shape(items_reexports(t, ks)),
    decreases ks.len(),
{
    if ks.len() > 0 {
        lemma_items_shape(t, ks.drop_last());
        let c = ks.last();
        let uses = match pub_use_argument(t, c) {
            Some(a) => pub_use_reexports(t[a].text),
            None => Seq::<BarrelReExportView>::empty(),
        };
        let macros = if t[c].kind == "macro_invocation"@ {
            token_tree_reexports(t, kids(t, c))
        } else {
            Seq::<BarrelReExportView>::empty()
        };
        if t[c].kind == "mod_item"@ && has_pub_visibility(t, c) && child_by_field(t, c, "body"@)
            is None && child_by_field(t, c, "name"@) is Some {
            lemma_reexport_view_shape(
                Seq::<Seq<char>>::empty(),
                t[child_by_field(t, c, "name"@)->0].text,
                true,
            );
        }
        assert(all_reexport_shape(mod_item_reexports(t, c)));
        if let Some(a) = pub_use_argument(t, c) {
            lemma_use_reexport_shape(without_self(t[a].text), false);
        }
        assert(all_reexport_shape(uses));
        lemma_token_trees_shape(t, kids(t, c));
        assert(all_reexport_shape(macros));
        lemma_shape_concat(mod_item_reexports(t, c), uses);
        lemma_shape_concat(mod_item_reexports(t, c) + uses, macros);
        lemma_shape_concat(items_reexports(t, ks.drop_last()), item_reexports(t, c));
    }
}

/// Every re-export of a Rust barrel file names a specifier under `./`, is
/// never a namespace wildcard, and lists no symbols when it is a wildcard.
pub proof fn law_barrel_reexport_shape(t: Seq<SyntaxNodeView>)
    ensures
        all_reexport_shape(barrel_reexports(t)),
{
    if t.len() > 0 {
        lemma_items_shape(t, kids(t, 0));
    }
}



/// Every name of `s1` is among `s2`.
pub open spec fn names_within(s1: Seq<Seq<char>>, s2: Seq<Seq<char>>) -> bool {
    forall|x: Seq<char>| #[trigger] s1.contains(x) ==> s2.contains(x)
}

/// Every entry of table `a` has an entry of table `b` with the same key and
/// at least its symbols.
pub open spec fn table_covers(
    a: Seq<(Seq<char>, Seq<Seq<char>>)>,
    b: Seq<(Seq<char>, Seq<Seq<char>>)>,
) -> bool {
    forall|i: int| 0 <= i < a.len() ==> covered_by(b, #[trigger] a[i])
}

/// Table `b` has an entry with the key of `e` and at least its symbols.
pub open spec fn covered_by(b: Seq<(Seq<char>, Seq<Seq<char>>)>, e: (Seq<char>, Seq<Seq<char>>)) -> bool {
    exists|j: int| 0 <= j < b.len() && b[j].0 == e.0 && names_within(e.1, #[trigger] b[j].1)
}

proof fn lemma_within_concat(s1: Seq<Seq<char>>, s2: Seq<Seq<char>>, s: Seq<Seq<char>>)
    requires
        names_within(s1, s2),
    ensures
        names_within(s1 + s, s2 + s),
        names_within(s, s2 + s),
        names_within(s2, s2 + s),
{
    assert forall|x: Seq<char>| #[trigger] (s1 + s).contains(x) implies (s2 + s).contains(x) by {
        let i = choose|i: int| 0 <= i < (s1 + s).len() && (s1 + s)[i] == x;
        if i < s1.len() {
            assert(s1[i] == x);
            assert(s1.contains(x));
            let j = choose|j: int| 0 <= j < s2.len() && s2[j] == x;
            assert((s2 + s)[j] == x);
        } else {
            assert((s2 + s)[s2.len() + i - s1.len()] == x);
        }
    }
    assert forall|x: Seq<char>| #[trigger] s.contains(x) implies (s2 + s).contains(x) by {
        let i = choose|i: int| 0 <= i < s.len() && s[i] == x;
        assert((s2 + s)[s2.len() + i] == x);
    }
    assert forall|x: Seq<char>| #[trigger] s2.contains(x) implies (s2 + s).contains(x) by {
        let i = choose|i: int| 0 <= i < s2.len() && s2[i] == x;
        assert((s2 + s)[i] == x);
    }
}

proof fn lemma_within_refl(s: Seq<Seq<char>>)
    ensures
        names_within(s, s),
{
}

/// Extending the covering table keeps it covering.
proof fn lemma_covers_extend_right(
    a: Seq<(Seq<char>, Seq<Seq<char>>)>,
    b: Seq<(Seq<char>, Seq<Seq<char>>)>,
    k: Seq<char>,
    s: Seq<Seq<char>>,
)
    requires
        table_covers(a, b),
    ensures
        table_covers(a, table_extend(b, k, s)),
{
    let eb = table_extend(b, k, s);
    lemma_key_index(b, k);
    assert forall|i: int| 0 <= i < a.len() implies covered_by(eb, #[trigger] a[i]) by {
        assert(covered_by(b, a[i]));
        let j = choose|j: int| 0 <= j < b.len() && b[j].0 == a[i].0 && names_within(a[i].1, #[trigger] b[j].1);
        match key_index(b, k) {
            Some(jb) => {
                if j == jb {
                    lemma_within_concat(a[i].1, b[j].1, s);
                    assert(eb[j] == (k, b[j].1 + s));
                    assert(names_within(b[j].1, b[j].1 + s));
                    assert(names_within(a[i].1, eb[j].1));
                } else {
                    assert(eb[j] == b[j]);
                }
            },
            None => {
                assert(eb[j] == b[j]);
            },
        }
        assert(0 <= j < eb.len() && eb[j].0 == a[i].0 && names_within(a[i].1, eb[j].1));
        assert(covered_by(eb, a[i]));
    }
}

/// Extending both tables by the same entry keeps the covering.
proof fn lemma_covers_extend_both(
    a: Seq<(Seq<char>, Seq<Seq<char>>)>,
    b: Seq<(Seq<char>, Seq<Seq<char>>)>,
    k: Seq<char>,
    s: Seq<Seq<char>>,
)
    requires
        table_covers(a, b),
        keys_unique(b),
    ensures
        table_covers(table_extend(a, k, s), table_extend(b, k, s)),
{
    let ea = table_extend(a, k, s);
    let eb = table_extend(b, k, s);
    lemma_key_index(a, k);
    lemma_key_index(b, k);
    lemma_covers_extend_right(a, b, k, s);
    assert forall|i: int| 0 <= i < ea.len() implies covered_by(eb, #[trigger] ea[i]) by {
        let is_new = match key_index(a, k) {
            Some(ia) => i == ia,
            None => i == a.len(),
        };
        if !is_new {
            assert(ea[i] == a[i]);
            assert(covered_by(eb, a[i]));
        } else {
            let base = match key_index(a, k) {
                Some(ia) => a[ia].1,
                None => Seq::<Seq<char>>::empty(),
            };
            assert(ea[i] == (k, base + s)) by {
                if key_index(a, k) is None {
                    assert(base + s =~= s);
                }
            }
            match key_index(b, k) {
                Some(jb) => {
                    if let Some(ia) = key_index(a, k) {
                        assert(covered_by(b, a[ia]));
                        let j = choose|j: int|
                            0 <= j < b.len() && b[j].0 == a[ia].0 && names_within(a[ia].1, #[trigger] b[j].1);
                        assert(j == jb) by {
                            if j != jb {
                                assert(b[j].0 == b[jb].0);
                            }
                        }
                        lemma_within_concat(a[ia].1, b[jb].1, s);
                    } else {
                        lemma_within_concat(Seq::<Seq<char>>::empty(), b[jb].1, s);
                    }
                    assert(eb[jb] == (k, b[jb].1 + s));
                    assert(names_within(ea[i].1, eb[jb].1));
                    assert(covered_by(eb, ea[i]));
                },
                None => {
                    if let Some(ia) = key_index(a, k) {
                        assert(covered_by(b, a[ia]));
                        let j = choose|j: int|
                            0 <= j < b.len() && b[j].0 == a[ia].0 && names_within(a[ia].1, #[trigger] b[j].1);
                        assert(b[j].0 == k);
                        assert(false);
                    }
                    assert(base + s =~= s);
                    assert(eb =~= b.push((k, s)));
                    assert(eb[b.len() as int] == (k, s));
                    assert(ea[i].1 == s);
                    lemma_within_refl(s);
                    assert(names_within(ea[i].1, eb[b.len() as int].1));
                    assert(covered_by(eb, ea[i]));
                },
            }
        }
    }
}

proof fn lemma_use_path_covers(
    p: Seq<char>,
    a: Seq<(Seq<char>, Seq<Seq<char>>)>,
    b: Seq<(Seq<char>, Seq<Seq<char>>)>,
)
    requires
        table_covers(a, b),
        keys_unique(b),
    ensures
        table_covers(use_path_update(p, a), use_path_update(p, b)),
        table_covers(a, use_path_update(p, b)),
{
    match find_char(p, '{') {
        Some(bs) => {
            let spec = replace_seq(p.take(brace_module_cut(p, bs)->0), "::"@, "/"@);
            if let Some(be) = find_char(p, '}') {
                let s = list_symbols(p.subrange(bs + 1, be), true);
                lemma_covers_extend_both(a, b, spec, s);
                lemma_covers_extend_right(a, b, spec, s);
            }
        },
        None => match strip_suffix(p, "::*"@) {
            Some(module_part) => {
                let spec = replace_seq(module_part, "::"@, "/"@);
                lemma_covers_extend_both(a, b, spec, Seq::<Seq<char>>::empty());
                lemma_covers_extend_right(a, b, spec, Seq::<Seq<char>>::empty());
            },
            None => {
                lemma_covers_extend_both(a, b, p, Seq::<Seq<char>>::empty());
                lemma_covers_extend_right(a, b, p, Seq::<Seq<char>>::empty());
                let parts = split_seq(p, "::"@);
                if parts.len() >= 2 {
                    let spec = join_seq(parts.drop_last(), "/"@);
                    lemma_covers_extend_both(a, b, spec, seq![parts.last()]);
                    lemma_covers_extend_right(a, b, spec, seq![parts.last()]);
                }
            },
        },
    }
}

proof fn lemma_fold_uses_covers(t: Seq<SyntaxNodeView>, ks: Seq<int>, n: Seq<char>)
    ensures
        table_covers(fold_uses(t, ks, None), fold_uses(t, ks, Some(n))),
    decreases ks.len(),
{
    if ks.len() == 0 {
    } else {
        lemma_fold_uses_covers(t, ks.drop_last(), n);
        lemma_fold_uses_unique(t, ks.drop_last(), Some(n));
        let a = fold_uses(t, ks.drop_last(), None);
        let b = fold_uses(t, ks.drop_last(), Some(n));
        if let Some(x) = use_argument(t, ks.last()) {
            let full = t[x].text;
            if let Some(rest) = strip_prefix(full, "crate::"@) {
                lemma_use_path_covers(rest, a, b);
            } else if let Some(rest) = strip_prefix(full, n + "::"@) {
                lemma_use_path_covers(rest, a, b);
            }
        }
    }
}

/// Naming the crate only adds imports: every specifier that the import
/// table lists without a crate name is listed with one, with at least the
/// same symbols.
pub proof fn law_crate_name_only_adds_imports(t: Seq<SyntaxNodeView>, n: Seq<char>)
    ensures
        table_covers(rust_import_table(t, None), rust_import_table(t, Some(n))),
{
    if t.len() > 0 {
        lemma_fold_uses_covers(t, kids(t, 0), n);
    }
}


/// Entry `i` is one that the member search records: a directory it enters,
/// at most five levels below the root (depth 0 to 4), whose `Cargo.toml`
/// names a package.
pub open spec fn member_entry(es: Seq<DirEntryView>, i: int) -> bool {
    &&& es[i].depth <= max_traverse_depth()
    &&& entry_visited(es[i])
    &&& entry_crate(es[i]) is Some
}

/// Entry `i` became a workspace member.
pub open spec fn became_member(es: Seq<DirEntryView>, i: int) -> bool {
    members_upto(es, i + 1).0.len() > members_upto(es, i).0.len()
}

/// Entry `j` lies inside the directory of entry `i`: it follows `i`, and
/// every entry from just after `i` up to `j` is deeper than `i`.
pub open spec fn entry_inside(es: Seq<DirEntryView>, i: int, j: int) -> bool {
    i < j && forall|k: int| i < k <= j ==> #[trigger] es[k].depth > es[i].depth
}

/// Member `m` is the (crate name, path) of one of the first `n` entries
/// that the search records.
pub open spec fn recorded_from(es: Seq<DirEntryView>, n: int, m: (Seq<char>, Seq<char>)) -> bool {
    exists|i: int|
        0 <= i < n && #[trigger] member_entry(es, i) && m == (entry_crate(es[i])->0, es[i].path)
}

proof fn lemma_members_from_entries(es: Seq<DirEntryView>, n: int)
    requires
        n <= es.len(),
    ensures
        forall|q: int|
            0 <= q < members_upto(es, n).0.len() ==> recorded_from(
                es,
                n,
                #[trigger] members_upto(es, n).0[q],
            ),
    decreases n,
{
    if n > 0 {
        lemma_members_from_entries(es, n - 1);
        let (ms, cut) = members_upto(es, n - 1);
        let cur = members_upto(es, n).0;
        assert forall|q: int| 0 <= q < cur.len() implies recorded_from(es, n, #[trigger] cur[q]) by {
            if q < ms.len() {
                assert(cur[q] == ms[q]);
                assert(recorded_from(es, n - 1, ms[q]));
                let i = choose|i: int|
                    0 <= i < n - 1 && #[trigger] member_entry(es, i) && ms[q] == (
                        entry_crate(es[i])->0,
                        es[i].path,
                    );
                assert(0 <= i < n && member_entry(es, i));
            } else {
                assert(member_entry(es, n - 1));
                assert(cur[q] == (entry_crate(es[n - 1])->0, es[n - 1].path));
            }
        }
    }
}

proof fn lemma_member_step(es: Seq<DirEntryView>, i: int)
    requires
        0 <= i < es.len(),
        became_member(es, i),
    ensures
        member_entry(es, i),
        members_upto(es, i + 1).1 == Some(es[i].depth),
        members_upto(es, i + 1).0 == members_upto(es, i).0.push((entry_crate(es[i])->0, es[i].path)),
{
}

/// The search does not look below entry `i`: a member, a directory it
/// does not enter, or an entry deeper than it reads.
pub open spec fn closes_subtree(es: Seq<DirEntryView>, i: int) -> bool {
    became_member(es, i) || !entry_visited(es[i]) || es[i].depth > max_traverse_depth()
}

proof fn lemma_closing_cut(es: Seq<DirEntryView>, i: int, n: int)
    requires
        0 <= i < n <= es.len(),
        closes_subtree(es, i),
        forall|k: int| i < k < n ==> #[trigger] es[k].depth > es[i].depth,
    ensures
        members_upto(es, n).1 matches Some(c) && c <= es[i].depth,
        members_upto(es, n).0.len() == members_upto(es, i + 1).0.len(),
    decreases n,
{
    if n == i + 1 {
        if became_member(es, i) {
            lemma_member_step(es, i);
        }
    } else {
        lemma_closing_cut(es, i, n - 1);
        assert(es[n - 1].depth > es[i].depth);
    }
}

/// The workspace members are the recorded directories: each member is the
/// path of a directory entered at most five levels below the root (never a
/// hidden, `target`, `.cargo` or `vendor` directory) together with the
/// package name of its `Cargo.toml`, which holds no hyphen; and no entry
/// inside a member's directory, or inside a directory the search does not
/// enter, becomes a member.
pub proof fn law_workspace_members(root_manifest: Option<Seq<char>>, es: Seq<DirEntryView>)
    ensures
        forall|q: int|
            0 <= q < workspace_members(root_manifest, es).len() ==> recorded_from(
                es,
                es.len() as int,
                #[trigger] workspace_members(root_manifest, es)[q],
            ) && !workspace_members(root_manifest, es)[q].0.contains('-'),
        forall|i: int| 0 <= i < es.len() && #[trigger] became_member(es, i) ==> member_entry(es, i),
        forall|i: int, j: int|
            0 <= i < j < es.len() && #[trigger] closes_subtree(es, i) && #[trigger] entry_inside(
                es,
                i,
                j,
            ) ==> !became_member(es, j),
{
    lemma_members_from_entries(es, es.len() as int);
    let wm = workspace_members(root_manifest, es);
    assert forall|q: int| 0 <= q < wm.len() implies recorded_from(es, es.len() as int, #[trigger] wm[q])
        && !wm[q].0.contains('-') by {
        assert(wm == members_upto(es, es.len() as int).0);
        assert(recorded_from(es, es.len() as int, members_upto(es, es.len() as int).0[q]));
        let i = choose|i: int|
            0 <= i < es.len() && #[trigger] member_entry(es, i) && wm[q] == (
                entry_crate(es[i])->0,
                es[i].path,
            );
        law_crate_name_has_no_hyphen(es[i].manifest->0);
    }
    assert forall|i: int| 0 <= i < es.len() && #[trigger] became_member(es, i) implies member_entry(
        es,
        i,
    ) by {
        lemma_member_step(es, i);
    }
    assert forall|i: int, j: int|
        0 <= i < j < es.len() && #[trigger] closes_subtree(es, i) && #[trigger] entry_inside(
            es,
            i,
            j,
        ) implies !became_member(es, j) by {
        lemma_closing_cut(es, i, j);
        assert(es[j].depth > es[i].depth);
    }
}


/// No specifier of table `m` holds `::`.
pub open spec fn keys_free_of_colons(m: Seq<(Seq<char>, Seq<Seq<char>>)>) -> bool {
    forall|j: int| 0 <= j < m.len() ==> !contains_seq(#[trigger] m[j].0, "::"@)
}

proof fn lemma_extend_keys_free(m: Seq<(Seq<char>, Seq<Seq<char>>)>, k: Seq<char>, s: Seq<Seq<char>>)
    requires
        keys_free_of_colons(m),
        !contains_seq(k, "::"@),
    ensures
        keys_free_of_colons(table_extend(m, k, s)),
{
    lemma_key_index(m, k);
    let e = table_extend(m, k, s);
    assert forall|j: int| 0 <= j < e.len() implies !contains_seq(#[trigger] e[j].0, "::"@) by {
        match key_index(m, k) {
            Some(i) => {
                if j != i {
                    assert(e[j] == m[j]);
                }
            },
            None => {
                if j < m.len() {
                    assert(e[j] == m[j]);
                }
            },
        }
    }
}

/// Recording a use path names modules with `/` in place of `::`: no
/// specifier that it adds holds `::` (`models::user::{User}` is recorded
/// under `models/user`, never `models::user`).
pub proof fn law_use_path_specifiers_use_slashes(p: Seq<char>, m: Seq<(Seq<char>, Seq<Seq<char>>)>)
    requires
        keys_free_of_colons(m),
    ensures
        keys_free_of_colons(use_path_update(p, m)),
{
    reveal_strlit("::");
    match find_char(p, '{') {
        Some(bs) => {
            let spec = replace_seq(p.take(brace_module_cut(p, bs)->0), "::"@, "/"@);
            lemma_replace_colons_free(p.take(brace_module_cut(p, bs)->0));
            if let Some(be) = find_char(p, '}') {
                lemma_extend_keys_free(m, spec, list_symbols(p.subrange(bs + 1, be), true));
            }
        },
        None => match strip_suffix(p, "::*"@) {
            Some(module_part) => {
                lemma_replace_colons_free(module_part);
                lemma_extend_keys_free(m, replace_seq(module_part, "::"@, "/"@), Seq::<Seq<char>>::empty());
            },
            None => {
                if !contains_seq(p, "::"@) {
                    lemma_extend_keys_free(m, p, Seq::<Seq<char>>::empty());
                }
                let parts = split_seq(p, "::"@);
                lemma_split_parts_free(p, "::"@);
                let init = parts.drop_last();
                assert forall|q: int| 0 <= q < init.len() implies !contains_seq(#[trigger] init[q], "::"@) by {
                    assert(init[q] == parts[q]);
                }
                lemma_join_slash_free(init);
                if parts.len() >= 2 {
                    lemma_extend_keys_free(m, join_seq(init, "/"@), seq![parts.last()]);
                }
            },
        },
    }
}

proof fn lemma_fold_uses_keys_free(t: Seq<SyntaxNodeView>, ks: Seq<int>, crate_name: Option<Seq<char>>)
    ensures
        keys_free_of_colons(fold_uses(t, ks, crate_name)),
    decreases ks.len(),
{
    if ks.len() > 0 {
        lemma_fold_uses_keys_free(t, ks.drop_last(), crate_name);
        let m = fold_uses(t, ks.drop_last(), crate_name);
        if let Some(a) = use_argument(t, ks.last()) {
            let full = t[a].text;
            if let Some(rest) = strip_prefix(full, "crate::"@) {
                law_use_path_specifiers_use_slashes(rest, m);
            } else if let Some(n) = crate_name {
                if let Some(rest) = strip_prefix(full, n + "::"@) {
                    law_use_path_specifiers_use_slashes(rest, m);
                }
            }
        }
    }
}

/// Every specifier of a Rust source's import table is a path with `/`
/// between modules: none holds `::`.
pub proof fn law_import_specifiers_use_slashes(t: Seq<SyntaxNodeView>, crate_name: Option<Seq<char>>)
    ensures
        keys_free_of_colons(rust_import_table(t, crate_name)),
{
    if t.len() > 0 {
        lemma_fold_uses_keys_free(t, kids(t, 0), crate_name);
    }
}


/// The member search never enters a hidden directory (name starting with
/// `.`), `target`, `.cargo` or `vendor`: such an entry is no member, and no
/// entry inside it becomes one.
pub proof fn law_skipped_directories(es: Seq<DirEntryView>, i: int, n: Seq<char>)
    requires
        0 <= i < es.len(),
        es[i].name == Some(n),
        starts_with(n, "."@) || n == "target"@ || n == ".cargo"@ || n == "vendor"@,
    ensures
        !became_member(es, i),
        forall|j: int| i < j < es.len() && #[trigger] entry_inside(es, i, j) ==> !became_member(es, j),
{
    assert(!entry_visited(es[i]));
    if became_member(es, i) {
        lemma_member_step(es, i);
    }
    assert(closes_subtree(es, i));
    assert forall|j: int| i < j < es.len() && #[trigger] entry_inside(es, i, j) implies !became_member(
        es,
        j,
    ) by {
        lemma_closing_cut(es, i, j);
        assert(es[j].depth > es[i].depth);
    }
}


proof fn lemma_tests_dir_path(d: Seq<char>, x: Seq<char>)
    requires
        !x.contains('/'),
    ensures
        file_name(d + "/tests"@ + seq!['/'] + (x + ".rs"@)) == Some(x + ".rs"@),
        file_name("tests"@ + seq!['/'] + (x + ".rs"@)) == Some(x + ".rs"@),
        strip_suffix(x + ".rs"@, ".rs"@) == Some(x),
        under_tests_dir(backslash_to_slash(d + "/tests"@ + seq!['/'] + (x + ".rs"@))),
        under_tests_dir(backslash_to_slash("tests"@ + seq!['/'] + (x + ".rs"@))),
{
    reveal_strlit("/tests");
    reveal_strlit("/tests/");
    reveal_strlit(".rs");
    let dir = d + "/tests"@;
    let pn = x + ".rs"@;
    let path = dir + seq!['/'] + pn;
    assert(!pn.contains('/')) by {
        if pn.contains('/') {
            let i = choose|i: int| 0 <= i < pn.len() && pn[i] == '/';
            if i < x.len() {
                assert(x[i] == '/');
                assert(x.contains('/'));
            }
        }
    }
    assert(pn != seq!['.'] && pn != seq!['.', '.']) by {
        assert(pn.len() >= 3);
    }
    crate::paths::lemma_file_name_join(dir, pn);
    assert(pn.skip(pn.len() - 3) =~= ".rs"@);
    assert(pn.take(pn.len() - 3) =~= x);
    let k = d.len() as int;
    let norm = backslash_to_slash(path);
    assert(norm.subrange(k, k + 7) =~= "/tests/"@) by {
        assert forall|q: int| 0 <= q < 7 implies norm.subrange(k, k + 7)[q] == "/tests/"@[q] by {
            assert(path[k + q] == "/tests/"@[q]);
        }
    }
    assert(occurs_at(norm, "/tests/"@, k));
    assert(under_tests_dir(norm));
    reveal_strlit("tests");
    reveal_strlit("tests/");
    let top = "tests"@ + seq!['/'] + pn;
    crate::paths::lemma_file_name_join("tests"@, pn);
    let tnorm = backslash_to_slash(top);
    assert(tnorm.take(6) =~= "tests/"@) by {
        assert forall|q: int| 0 <= q < 6 implies tnorm.take(6)[q] == "tests/"@[q] by {
            assert(top[q] == "tests/"@[q]);
        }
    }
    assert(under_tests_dir(tnorm));
}

/// Every `.rs` file directly in a `tests/` directory, at any depth of the
/// project, is an integration test named by its stem (except `mod.rs` and
/// `main.rs`), and so never a production file.
pub proof fn law_tests_dir_files_are_tests(d: Seq<char>, x: Seq<char>)
    requires
        !x.contains('/'),
        !starts_with(x, "test_"@),
        !ends_with(x, "_test"@),
        x != "mod"@,
        x != "main"@,
    ensures
        rs_test_stem(d + "/tests"@ + seq!['/'] + (x + ".rs"@)) == Some(x),
        rs_production_stem(d + "/tests"@ + seq!['/'] + (x + ".rs"@)) is None,
        rs_test_stem("tests"@ + seq!['/'] + (x + ".rs"@)) == Some(x),
        rs_production_stem("tests"@ + seq!['/'] + (x + ".rs"@)) is None,
{
    reveal_strlit("test_");
    reveal_strlit("_test");
    lemma_tests_dir_path(d, x);
}

/// Whatever its name, a `.rs` file directly in a `tests/` directory (other
/// than `mod.rs` and `main.rs`) has a test stem, and no production stem:
/// the `tests/` directory alone makes it a test.
pub proof fn law_tests_dir_files_always_have_test_stem(d: Seq<char>, x: Seq<char>)
    requires
        !x.contains('/'),
        x != "mod"@,
        x != "main"@,
    ensures
        rs_test_stem(d + "/tests"@ + seq!['/'] + (x + ".rs"@)) is Some,
        rs_production_stem(d + "/tests"@ + seq!['/'] + (x + ".rs"@)) is None,
        rs_test_stem("tests"@ + seq!['/'] + (x + ".rs"@)) is Some,
        rs_production_stem("tests"@ + seq!['/'] + (x + ".rs"@)) is None,
{
    lemma_tests_dir_path(d, x);
}


/// A test file `X_test.rs`, in any directory, is the test of `X`: its test
/// stem is `X` and it has no production stem (for a non-empty name `X`
/// without `/` that does not itself begin with `test_`).
pub proof fn law_suffix_test_file_stem(d: Seq<char>, x: Seq<char>)
    requires
        x.len() > 0,
        !x.contains('/'),
        !starts_with(x, "test_"@),
    ensures
        rs_test_stem(d + seq!['/'] + (x + "_test.rs"@)) == Some(x),
        rs_production_stem(d + seq!['/'] + (x + "_test.rs"@)) is None,
{
    reveal_strlit("_test.rs");
    reveal_strlit(".rs");
    reveal_strlit("_test");
    let name = x + "_test.rs"@;
    assert(!name.contains('/')) by {
        if name.contains('/') {
            let i = choose|i: int| 0 <= i < name.len() && name[i] == '/';
            if i < x.len() {
                assert(x[i] == '/');
                assert(x.contains('/'));
            }
        }
    }
    assert(name != seq!['.'] && name != seq!['.', '.']) by {
        assert(name.len() >= 9);
    }
    crate::paths::lemma_file_name_join(d, name);
    assert(name.skip(name.len() - 3) =~= ".rs"@);
    assert(name.take(name.len() - 3) =~= x + "_test"@);
    crate::text::lemma_test_affixes(x);
}

proof fn lemma_slash_prefix_kept(p: Seq<char>, s: Seq<char>)
    requires
        !p.contains('\\'),
    ensures
        starts_with(backslash_to_slash(p + s), p),
{
    let n = backslash_to_slash(p + s);
    assert(n.take(p.len() as int) =~= p) by {
        assert forall|q: int| 0 <= q < p.len() implies n.take(p.len() as int)[q] == p[q] by {
            assert((p + s)[q] == p[q]);
            if p[q] == '\\' {
                assert(p.contains('\\'));
            }
        }
    }
}

proof fn lemma_slash_infix_kept(d: Seq<char>, p: Seq<char>, s: Seq<char>)
    requires
        !p.contains('\\'),
    ensures
        contains_seq(backslash_to_slash(d + p + s), p),
{
    let n = backslash_to_slash(d + p + s);
    let k = d.len() as int;
    assert(n.subrange(k, k + p.len()) =~= p) by {
        assert forall|q: int| 0 <= q < p.len() implies n.subrange(k, k + p.len())[q] == p[q] by {
            assert((d + p + s)[k + q] == p[q]);
            if p[q] == '\\' {
                assert(p.contains('\\'));
            }
        }
    }
    assert(occurs_at(n, p, k));
}

/// Files that are no subject under test: anything under an `examples/`,
/// `benches/` or `tests/common/` directory (at the root or deeper), and
/// build scripts; this holds whether or not the file is known production
/// code.
pub proof fn law_rust_helper_paths(d: Seq<char>, s: Seq<char>)
    ensures
        rs_is_non_sut_helper("examples/"@ + s),
        rs_is_non_sut_helper(d + "/examples/"@ + s),
        rs_is_non_sut_helper("benches/"@ + s),
        rs_is_non_sut_helper(d + "/benches/"@ + s),
        rs_is_non_sut_helper("tests/common/"@ + s),
        rs_is_non_sut_helper(d + "/tests/common/"@ + s),
        rs_is_non_sut_helper(d + seq!['/'] + "build.rs"@),
{
    reveal_strlit("examples/");
    reveal_strlit("/examples/");
    reveal_strlit("benches/");
    reveal_strlit("/benches/");
    reveal_strlit("tests/common/");
    reveal_strlit("/tests/common/");
    reveal_strlit("build.rs");
    assert forall|p: Seq<char>|
        p == "examples/"@ || p == "/examples/"@ || p == "benches/"@ || p == "/benches/"@ || p
            == "tests/common/"@ || p == "/tests/common/"@ implies !#[trigger] p.contains('\\') by {
        if p.contains('\\') {
            let i = choose|i: int| 0 <= i < p.len() && p[i] == '\\';
        }
    }
    lemma_slash_prefix_kept("examples/"@, s);
    lemma_slash_infix_kept(d, "/examples/"@, s);
    lemma_slash_prefix_kept("benches/"@, s);
    lemma_slash_infix_kept(d, "/benches/"@, s);
    lemma_slash_prefix_kept("tests/common/"@, s);
    lemma_slash_infix_kept(d, "/tests/common/"@, s);
    let b = "build.rs"@;
    let path = d + seq!['/'] + b;
    assert(backslash_to_slash(path) =~= backslash_to_slash(d) + seq!['/'] + b);
    assert(!b.contains('/'));
    crate::paths::lemma_file_name_join(backslash_to_slash(d), b);
}



proof fn lemma_cut_origin(es: Seq<DirEntryView>, n: int)
    requires
        0 <= n <= es.len(),
    ensures
        members_upto(es, n).1 matches Some(c) ==> exists|k: int|
            0 <= k < n && #[trigger] closes_subtree(es, k) && es[k].depth == c && forall|q: int|
                k < q < n ==> #[trigger] es[q].depth > c,
    decreases n,
{
    if n > 0 {
        lemma_cut_origin(es, n - 1);
        let (ms, cut) = members_upto(es, n - 1);
        let e = es[n - 1];
        let skipped = match cut {
            Some(c) => e.depth > c,
            None => false,
        };
        if skipped {
            let c = cut->0;
            let k = choose|k: int|
                0 <= k < n - 1 && #[trigger] closes_subtree(es, k) && es[k].depth == c && forall|q: int|
                    k < q < n - 1 ==> #[trigger] es[q].depth > c;
            assert forall|q: int| k < q < n implies #[trigger] es[q].depth > c by {
                if q < n - 1 {
                    assert(es[q].depth > c);
                }
            }
        } else if e.depth > max_traverse_depth() || !entry_visited(e) {
            assert(closes_subtree(es, n - 1));
        } else if entry_crate(e) is Some {
            assert(became_member(es, n - 1));
            assert(closes_subtree(es, n - 1));
        }
    }
}


/// The member search reads five levels below the root and no deeper: an
/// entry at depth 5 or more is never a member, while an entered directory
/// of depth 0 to 4 with a package manifest, not inside a member or a
/// directory the search skips, always is.
pub proof fn law_member_depth_limit(es: Seq<DirEntryView>, i: int)
    requires
        0 <= i < es.len(),
    ensures
        es[i].depth >= 5 ==> !became_member(es, i),
        (es[i].depth <= 4 && entry_visited(es[i]) && entry_crate(es[i]) is Some && forall|k: int|
            0 <= k < i && #[trigger] closes_subtree(es, k) ==> !entry_inside(es, k, i)) ==> became_member(
            es,
            i,
        ),
{
    if became_member(es, i) {
        lemma_member_step(es, i);
    }
    lemma_cut_origin(es, i);
    if es[i].depth <= 4 && entry_visited(es[i]) && entry_crate(es[i]) is Some && forall|k: int|
        0 <= k < i && #[trigger] closes_subtree(es, k) ==> !entry_inside(es, k, i) {
        if let Some(c) = members_upto(es, i).1 {
            if es[i].depth > c {
                let k = choose|k: int|
                    0 <= k < i && #[trigger] closes_subtree(es, k) && es[k].depth == c && forall|q: int|
                        k < q < i ==> #[trigger] es[q].depth > c;
                assert(entry_inside(es, k, i));
            }
        }
    }
}


/// A use list `m1::m2::…::mk::{L}` is recorded under the module path
/// `m1/m2/…/mk` with the names of `L`: each `::` between modules becomes
/// `/` (for module names without `:`, `{` or `}`, and a list without
/// braces).
pub proof fn law_use_list_specifier(
    ms: Seq<Seq<char>>,
    list: Seq<char>,
    m: Seq<(Seq<char>, Seq<Seq<char>>)>,
)
    requires
        ms.len() >= 1,
        forall|q: int|
            0 <= q < ms.len() ==> (#[trigger] ms[q]).len() > 0 && !ms[q].contains(':')
                && !ms[q].contains('{') && !ms[q].contains('}'),
        !list.contains('{'),
        !list.contains('}'),
    ensures
        use_path_update(join_seq(ms, "::"@) + "::{"@ + list + "}"@, m) == table_extend(
            m,
            join_seq(ms, "/"@),
            list_symbols(list, true),
        ),
{
    reveal_strlit("::");
    reveal_strlit("::{");
    reveal_strlit("}");
    reveal_strlit("/");
    let j = join_seq(ms, "::"@);
    let p = j + "::{"@ + list + "}"@;
    assert forall|q: int| 0 <= q < ms.len() implies !(#[trigger] ms[q]).contains('{') by {}
    assert forall|q: int| 0 <= q < ms.len() implies !(#[trigger] ms[q]).contains('}') by {}
    assert forall|q: int| 0 <= q < ms.len() implies !(#[trigger] ms[q]).contains(':') by {}
    assert(!"::"@.contains('{')) by {
        if "::"@.contains('{') {
            let i = choose|i: int| 0 <= i < 2 && "::"@[i] == '{';
        }
    }
    assert(!"::"@.contains('}')) by {
        if "::"@.contains('}') {
            let i = choose|i: int| 0 <= i < 2 && "::"@[i] == '}';
        }
    }
    lemma_join_lacks(ms, "::"@, '{');
    lemma_join_lacks(ms, "::"@, '}');
    lemma_join_nonempty(ms, "::"@);
    lemma_join_nonempty(ms, "/"@);
    let bs: int = j.len() as int + 2;
    let be: int = bs + 1 + list.len();
    assert(p[bs] == '{');
    assert(p[be] == '}');
    assert(p[bs - 1] == ':' && p[bs - 2] == ':');
    lemma_find_char_props(p, '{');
    lemma_find_char_props(p, '}');
    assert forall|k: int| 0 <= k < bs implies p[k] != '{' by {
        if k < j.len() {
            assert(p[k] == j[k]);
            if j[k] == '{' {
                assert(j.contains('{'));
            }
        }
    }
    assert forall|k: int| 0 <= k < be implies p[k] != '}' by {
        if k < j.len() {
            assert(p[k] == j[k]);
            if j[k] == '}' {
                assert(j.contains('}'));
            }
        } else if k > bs {
            assert(p[k] == list[k - bs - 1]);
            if list[k - bs - 1] == '}' {
                assert(list.contains('}'));
            }
        }
    }
    assert(find_char(p, '{') == Some(bs));
    assert(find_char(p, '}') == Some(be));
    assert(brace_module_cut(p, bs) == Some(bs - 2));
    assert(p.take(bs - 2) =~= j);
    assert(p.subrange(bs + 1, be) =~= list);
    lemma_replace_join(ms);
}


/// A use path `m1::…::mk::S` is recorded under `m1/…/mk` with the symbol
/// `S`, and `m1::…::mk::*` under `m1/…/mk` with no symbol (for module and
/// symbol names without `:`, `{` or `}`).
pub proof fn law_use_path_module_specifier(
    ms: Seq<Seq<char>>,
    sym: Seq<char>,
    m: Seq<(Seq<char>, Seq<Seq<char>>)>,
)
    requires
        ms.len() >= 1,
        forall|q: int|
            0 <= q < ms.len() ==> (#[trigger] ms[q]).len() > 0 && !ms[q].contains(':')
                && !ms[q].contains('{') && !ms[q].contains('}'),
        sym.len() > 0,
        !sym.contains(':'),
        !sym.contains('{'),
        !sym.contains('}'),
        sym != "*"@,
    ensures
        use_path_update(join_seq(ms, "::"@) + "::"@ + sym, m) == table_extend(
            m,
            join_seq(ms, "/"@),
            seq![sym],
        ),
        use_path_update(join_seq(ms, "::"@) + "::*"@, m) == table_extend(
            m,
            join_seq(ms, "/"@),
            Seq::<Seq<char>>::empty(),
        ),
{
    reveal_strlit("::");
    reveal_strlit("::*");
    reveal_strlit("*");
    reveal_strlit("/");
    let j = join_seq(ms, "::"@);
    assert(!"::"@.contains('{')) by {
        if "::"@.contains('{') {
            let i = choose|i: int| 0 <= i < 2 && "::"@[i] == '{';
        }
    }
    lemma_join_lacks(ms, "::"@, '{');
    lemma_join_nonempty(ms, "::"@);
    lemma_join_nonempty(ms, "/"@);
    lemma_replace_join(ms);
    // the glob form
    let g = j + "::*"@;
    lemma_find_char_props(g, '{');
    assert forall|k: int| 0 <= k < g.len() implies g[k] != '{' by {
        if k < j.len() {
            assert(g[k] == j[k]);
            if j[k] == '{' {
                assert(j.contains('{'));
            }
        }
    }
    assert(find_char(g, '{') is None);
    assert(g.skip(g.len() - 3) =~= "::*"@);
    assert(g.take(g.len() - 3) =~= j);
    // the single-symbol form
    let all = ms.push(sym);
    assert(all.drop_last() =~= ms);
    assert(all.last() == sym);
    let p = j + "::"@ + sym;
    assert(join_seq(all, "::"@) == p);
    assert forall|q: int| 0 <= q < all.len() implies !(#[trigger] all[q]).contains(':') && !all[q].contains(
        '{',
    ) by {
        if q < ms.len() {
            assert(all[q] == ms[q]);
        }
    }
    lemma_join_lacks(all, "::"@, '{');
    lemma_find_char_props(p, '{');
    assert(find_char(p, '{') is None) by {
        if let Some(k) = find_char(p, '{') {
            assert(p.contains('{'));
        }
    }
    assert(!ends_with(p, "::*"@)) by {
        if ends_with(p, "::*"@) {
            assert(p.skip(p.len() - 3)[2] == '*');
            assert(p[p.len() - 1] == '*');
            assert(sym[sym.len() - 1] == '*');
            if sym.len() >= 2 {
                assert(p.skip(p.len() - 3)[1] == ':');
                assert(sym[sym.len() - 2] == ':');
                assert(sym.contains(':'));
            } else {
                assert(sym =~= "*"@);
            }
        }
    }
    let k = j.len() as int;
    assert(p.subrange(k, k + 2) =~= "::"@);
    assert(occurs_at(p, "::"@, k));
    assert(contains_seq(p, "::"@));
    lemma_split_join_colons(all);
}

} // verus!
