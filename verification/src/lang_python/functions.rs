//! Facts about Python test functions read off the syntax tree: whether a
//! function sits in a non-test class, whether it is a pytest fixture, how
//! many parameters it takes and which assertions carry a message.

use vstd::prelude::*;
use crate::syntax::{
    SyntaxNode, SyntaxNodeView, child_by_field, child_by_field_exec, kids, kids_exec, kind_is,
    named_child, named_child_count, named_child_count_exec, named_child_exec, nodes_view,
    subtree_end, subtree_end_exec,
};
use crate::text::{
    chars_of, eq_lit, find_char, find_char_exec, is_char, lemma_trim_start_by_skip, slice_chars,
    lemma_find_char_props,
    starts_with, starts_with_lit, trim, trim_exec, trim_start_by,
};

verus! {

// ---------------------------------------------------------------------------
// Enclosing classes
// ---------------------------------------------------------------------------

/// Node `j` is a proper ancestor of node `i`: `i` lies in `j`'s subtree.
pub open spec fn is_ancestor(t: Seq<SyntaxNodeView>, j: int, i: int) -> bool {
    0 <= j < i < subtree_end(t, j)
}

/// The outermost class definition among the first `n` nodes that holds
/// node `i`.
pub open spec fn outermost_class_upto(t: Seq<SyntaxNodeView>, i: int, n: int) -> Option<int>
    decreases n,
{
    if n <= 0 {
        None
    } else {
        match outermost_class_upto(t, i, n - 1) {
            Some(c) => Some(c),
            None => if t[n - 1].kind == "class_definition"@ && is_ancestor(t, n - 1, i) {
                Some(n - 1)
            } else {
                None
            },
        }
    }
}

/// The name of the class defined at `c` (empty when it has none).
pub open spec fn class_name_of(t: Seq<SyntaxNodeView>, c: int) -> Seq<char> {
    match child_by_field(t, c, "name"@) {
        Some(n) => t[n].text,
        None => Seq::<char>::empty(),
    }
}

/// Node `i` sits inside a class whose outermost enclosing class is not a
/// test class (its name starts with neither `Test` nor `test_`); a
/// module-level node does not.
pub open spec fn in_non_test_class(t: Seq<SyntaxNodeView>, i: int) -> bool {
    match outermost_class_upto(t, i, i) {
        None => false,
        Some(c) => {
            let name = class_name_of(t, c);
            !starts_with(name, "Test"@) && !starts_with(name, "test_"@)
        },
    }
}

/// Whether node `i` sits inside a non-test class (see
/// [`in_non_test_class`]).
pub fn is_in_non_test_class(t: &Vec<SyntaxNode>, i: usize) -> (r: bool)
    requires
        i < t@.len(),
    ensures
        r == in_non_test_class(nodes_view(t@), i as int),
{
    let ghost tv = nodes_view(t@);
    let mut j: usize = 0;
    while j < i
        invariant
            tv == nodes_view(t@),
            j <= i < t@.len(),
            outermost_class_upto(tv, i as int, j as int) is None,
        decreases i - j,
    {
        if kind_is(t, j, "class_definition") {
            let e = subtree_end_exec(t, j);
            if i < e {
                proof {
                    lemma_outermost_stays(tv, i as int, j + 1, i as int);
                }
                let name = match child_by_field_exec(t, j, "name") {
                    Some(n) => chars_of(t[n].text.as_str()),
                    None => Vec::new(),
                };
                return !starts_with_lit(name.as_slice(), "Test") && !starts_with_lit(
                    name.as_slice(),
                    "test_",
                );
            }
        }
        j = j + 1;
    }
    false
}

proof fn lemma_outermost_stays(t: Seq<SyntaxNodeView>, i: int, n: int, m: int)
    requires
        0 < n <= m,
        outermost_class_upto(t, i, n) is Some,
    ensures
        outermost_class_upto(t, i, m) == outermost_class_upto(t, i, n),
    decreases m - n,
{
    if m > n {
        lemma_outermost_stays(t, i, n, m - 1);
    }
}

// ---------------------------------------------------------------------------
// Fixtures
// ---------------------------------------------------------------------------

/// The name of a decorator from its text: without leading `@`, up to the
/// first `(`, trimmed (`@pytest.fixture(scope="module")` gives
/// `pytest.fixture`).
pub open spec fn decorator_name(text: Seq<char>) -> Seq<char> {
    let s = trim_start_by(text, is_char('@'));
    trim(
        match find_char(s, '(') {
            Some(k) => s.take(k),
            None => s,
        },
    )
}

/// A decorator that marks a pytest fixture.
pub open spec fn is_fixture_decorator(text: Seq<char>) -> bool {
    decorator_name(text) == "pytest.fixture"@ || decorator_name(text) == "fixture"@
}

/// Some decorator child of the decorated definition at `d` marks a pytest
/// fixture.
pub open spec fn has_fixture_decorator(t: Seq<SyntaxNodeView>, d: int) -> bool {
    exists|x: int|
        0 <= x < kids(t, d).len() && t[kids(t, d)[x]].kind == "decorator"@ && is_fixture_decorator(
            t[kids(t, d)[x]].text,
        )
}

fn decorator_name_exec(text: &str) -> (r: Vec<char>)
    ensures
        r@ == decorator_name(text@),
{
    let v = chars_of(text);
    let mut a: usize = 0;
    while a < v.len() && v[a] == '@'
        invariant
            a <= v@.len(),
            forall|j: int| 0 <= j < a ==> is_char('@')(#[trigger] v@[j]),
        decreases v@.len() - a,
    {
        a = a + 1;
    }
    proof {
        lemma_trim_start_by_skip(v@, is_char('@'), a as int);
        if a < v@.len() {
            assert(!is_char('@')(v@.skip(a as int)[0]));
        }
        assert(trim_start_by(v@.skip(a as int), is_char('@')) == v@.skip(a as int));
    }
    let s = slice_chars(v.as_slice(), a, v.len());
    assert(s@ == v@.skip(a as int));
    proof {
        crate::text::lemma_find_char_props(s@, '(');
    }
    let head = match find_char_exec(s.as_slice(), '(') {
        Some(k) => slice_chars(s.as_slice(), 0, k),
        None => s,
    };
    trim_exec(head.as_slice())
}

/// Whether the decorated definition at `d` is a pytest fixture (see
/// [`has_fixture_decorator`]).
pub fn is_pytest_fixture_decorator(t: &Vec<SyntaxNode>, d: usize) -> (r: bool)
    requires
        d < t@.len(),
    ensures
        r == has_fixture_decorator(nodes_view(t@), d as int),
{
    let ghost tv = nodes_view(t@);
    let ks = kids_exec(t, d);
    let ghost kv = ks@.map_values(|k: usize| k as int);
    let mut x: usize = 0;
    while x < ks.len()
        invariant
            tv == nodes_view(t@),
            kv == ks@.map_values(|k: usize| k as int),
            kv == kids(tv, d as int),
            x <= ks@.len(),
            forall|k: int| 0 <= k < ks@.len() ==> #[trigger] ks@[k] < t@.len(),
            forall|y: int|
                0 <= y < x ==> !(tv[kv[y]].kind == "decorator"@ && is_fixture_decorator(
                    tv[kv[y]].text,
                )),
        decreases ks@.len() - x,
    {
        let k = ks[x];
        assert(kv[x as int] == k as int);
        if kind_is(t, k, "decorator") {
            let name = decorator_name_exec(t[k].text.as_str());
            if eq_lit(name.as_slice(), "pytest.fixture") || eq_lit(name.as_slice(), "fixture") {
                return true;
            }
        }
        x = x + 1;
    }
    false
}

// ---------------------------------------------------------------------------
// Parameters
// ---------------------------------------------------------------------------

/// The nearest function definition among the first `n` nodes that is node
/// `i` or holds it.
pub open spec fn enclosing_function_upto(t: Seq<SyntaxNodeView>, i: int, n: int) -> Option<int>
    decreases n,
{
    if n <= 0 {
        None
    } else if t[n - 1].kind == "function_definition"@ && (n - 1 == i || is_ancestor(t, n - 1, i)) {
        Some(n - 1)
    } else {
        enclosing_function_upto(t, i, n - 1)
    }
}

/// The number of parameters of the function that is or holds node `i`,
/// not counting a first `self` or `cls`; 0 outside any function.
pub open spec fn function_param_count(t: Seq<SyntaxNodeView>, i: int) -> nat {
    match enclosing_function_upto(t, i, i + 1) {
        None => 0,
        Some(f) => match child_by_field(t, f, "parameters"@) {
            None => 0,
            Some(p) => {
                let c = named_child_count(t, p);
                if c == 0 {
                    0
                } else {
                    match named_child(t, p, 0) {
                        Some(q) => if t[q].text == "self"@ || t[q].text == "cls"@ {
                            (c - 1) as nat
                        } else {
                            c
                        },
                        None => c,
                    }
                }
            },
        },
    }
}

fn enclosing_function_exec(t: &Vec<SyntaxNode>, i: usize) -> (r: Option<usize>)
    requires
        i < t@.len(),
    ensures
        match r {
            Some(f) => enclosing_function_upto(nodes_view(t@), i as int, i + 1) == Some(f as int)
                && f < t@.len(),
            None => enclosing_function_upto(nodes_view(t@), i as int, i + 1) is None,
        },
{
    let ghost tv = nodes_view(t@);
    let mut j: usize = i;
    loop
        invariant
            tv == nodes_view(t@),
            j <= i < t@.len(),
            enclosing_function_upto(tv, i as int, i + 1) == enclosing_function_upto(
                tv,
                i as int,
                j + 1,
            ),
        decreases j,
    {
        if kind_is(t, j, "function_definition") && (j == i || i < subtree_end_exec(t, j)) {
            return Some(j);
        }
        if j == 0 {
            assert(enclosing_function_upto(tv, i as int, 0) is None);
            return None;
        }
        j = j - 1;
    }
}

/// The number of parameters of the function that is or holds node `i`
/// (see [`function_param_count`]).
pub fn count_function_params(t: &Vec<SyntaxNode>, i: usize) -> (r: usize)
    requires
        i < t@.len(),
    ensures
        r == function_param_count(nodes_view(t@), i as int),
{
    let f = match enclosing_function_exec(t, i) {
        Some(f) => f,
        None => {
            return 0;
        },
    };
    let p = match child_by_field_exec(t, f, "parameters") {
        Some(p) => p,
        None => {
            return 0;
        },
    };
    let c = named_child_count_exec(t, p);
    if c == 0 {
        return 0;
    }
    match named_child_exec(t, p, 0) {
        Some(q) => {
            let qv = chars_of(t[q].text.as_str());
            if eq_lit(qv.as_slice(), "self") || eq_lit(qv.as_slice(), "cls") {
                c - 1
            } else {
                c
            }
        },
        None => c,
    }
}

// ---------------------------------------------------------------------------
// Assertion messages
// ---------------------------------------------------------------------------

/// The assertion at `a` carries a failure message: `assert cond, "msg"`
/// (a second named child), or a call whose last argument is a string.
pub open spec fn assertion_has_message(t: Seq<SyntaxNodeView>, a: int) -> bool {
    if t[a].kind == "assert_statement"@ {
        named_child_count(t, a) > 1
    } else if t[a].kind == "call"@ {
        match child_by_field(t, a, "arguments"@) {
            Some(g) => {
                let c = named_child_count(t, g);
                c > 0 && match named_child(t, g, (c - 1) as nat) {
                    Some(l) => t[l].kind == "string"@ || t[l].kind == "concatenated_string"@,
                    None => false,
                }
            },
            None => false,
        }
    } else {
        false
    }
}

/// The number of the assertions among the first `n` of `assertions` that
/// carry a message.
pub open spec fn messages_upto(t: Seq<SyntaxNodeView>, assertions: Seq<usize>, n: int) -> nat
    decreases n,
{
    if n <= 0 {
        0
    } else {
        messages_upto(t, assertions, n - 1) + if assertion_has_message(t, assertions[n - 1] as int) {
            1nat
        } else {
            0nat
        }
    }
}

fn assertion_has_message_exec(t: &Vec<SyntaxNode>, a: usize) -> (r: bool)
    requires
        a < t@.len(),
    ensures
        r == assertion_has_message(nodes_view(t@), a as int),
{
    if kind_is(t, a, "assert_statement") {
        named_child_count_exec(t, a) > 1
    } else if kind_is(t, a, "call") {
        match child_by_field_exec(t, a, "arguments") {
            Some(g) => {
                let c = named_child_count_exec(t, g);
                if c == 0 {
                    return false;
                }
                match named_child_exec(t, g, c - 1) {
                    Some(l) => kind_is(t, l, "string") || kind_is(t, l, "concatenated_string"),
                    None => false,
                }
            },
            None => false,
        }
    } else {
        false
    }
}

/// Count the assertions (nodes of `t`) that carry a failure message.
pub fn count_assertion_messages_py(t: &Vec<SyntaxNode>, assertions: &Vec<usize>) -> (r: usize)
    requires
        forall|k: int| 0 <= k < assertions@.len() ==> #[trigger] assertions@[k] < t@.len(),
    ensures
        r == messages_upto(nodes_view(t@), assertions@, assertions@.len() as int),
{
    let ghost tv = nodes_view(t@);
    let mut n: usize = 0;
    let mut i: usize = 0;
    while i < assertions.len()
        invariant
            tv == nodes_view(t@),
            forall|k: int| 0 <= k < assertions@.len() ==> #[trigger] assertions@[k] < t@.len(),
            i <= assertions@.len(),
            n <= i,
            n == messages_upto(tv, assertions@, i as int),
        decreases assertions@.len() - i,
    {
        if assertion_has_message_exec(t, assertions[i]) {
            n = n + 1;
        }
        i = i + 1;
    }
    n
}

} // verus!
