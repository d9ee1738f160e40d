//! Facts about Rust test functions read off the syntax tree: which `let`
//! bindings set up fixtures and which assertions carry a message.

use vstd::prelude::*;
use crate::syntax::{
    SyntaxNode, SyntaxNodeView, child_by_field, child_by_field_exec, kids, kids_exec, kind_is,
    lemma_child_after, nodes_view,
};
use crate::text::{chars_of, contains_lit, contains_seq};

verus! {

// ---------------------------------------------------------------------------
// Fixture bindings
// ---------------------------------------------------------------------------

/// The call at `i` builds a value rather than acting on a local: a path
/// call (`Type::new()`), a free function call (`make()`), or a method chain
/// whose innermost receiver is such a call (`Config::builder().build()`);
/// a method called on a variable (`service.create()`) is not.
pub open spec fn constructor_call(t: Seq<SyntaxNodeView>, i: int) -> bool
    decreases t.len() - i,
{
    if i < 0 || i >= t.len() {
        true
    } else {
        match child_by_field(t, i, "function"@) {
            None => true,
            Some(f) => if t[f].kind == "scoped_identifier"@ || t[f].kind == "identifier"@ {
                true
            } else if t[f].kind == "field_expression"@ {
                match child_by_field(t, f, "value"@) {
                    None => true,
                    Some(v) => if t[v].kind == "call_expression"@ {
                        proof {
                            lemma_child_after(t, i, "function"@);
                            lemma_child_after(t, f, "value"@);
                        }
                        constructor_call(t, v)
                    } else {
                        false
                    },
                }
            } else {
                true
            },
        }
    }
}

/// Whether the call at `i` builds a value (see [`constructor_call`]).
pub fn is_constructor_call(t: &Vec<SyntaxNode>, i: usize) -> (r: bool)
    requires
        i < t@.len(),
    ensures
        r == constructor_call(nodes_view(t@), i as int),
    decreases t@.len() - i,
{
    let ghost tv = nodes_view(t@);
    let f = match child_by_field_exec(t, i, "function") {
        Some(f) => f,
        None => {
            return true;
        },
    };
    if kind_is(t, f, "scoped_identifier") || kind_is(t, f, "identifier") {
        return true;
    }
    if !kind_is(t, f, "field_expression") {
        return true;
    }
    match child_by_field_exec(t, f, "value") {
        None => true,
        Some(v) => {
            if kind_is(t, v, "call_expression") {
                is_constructor_call(t, v)
            } else {
                false
            }
        },
    }
}

/// The value at `v` of a `let` sets up a fixture: anything but a call, or
/// a call that builds a value.
pub open spec fn fixture_value(t: Seq<SyntaxNodeView>, v: int) -> bool {
    t[v].kind == "call_expression"@ ==> constructor_call(t, v)
}

/// Whether the `let` value at `v` sets up a fixture (see
/// [`fixture_value`]).
pub fn is_fixture_value(t: &Vec<SyntaxNode>, v: usize) -> (r: bool)
    requires
        v < t@.len(),
    ensures
        r == fixture_value(nodes_view(t@), v as int),
{
    if kind_is(t, v, "call_expression") {
        is_constructor_call(t, v)
    } else {
        true
    }
}

/// The node at `k` is a `let` that sets up a fixture (one without a value
/// counts too).
pub open spec fn fixture_let(t: Seq<SyntaxNodeView>, k: int) -> bool {
    t[k].kind == "let_declaration"@ && match child_by_field(t, k, "value"@) {
        Some(v) => fixture_value(t, v),
        None => true,
    }
}

/// The number of fixture `let`s among the positions `ks`.
pub open spec fn fixture_lets_in(t: Seq<SyntaxNodeView>, ks: Seq<int>) -> nat
    decreases ks.len(),
{
    if ks.len() == 0 {
        0
    } else {
        fixture_lets_in(t, ks.drop_last()) + if fixture_let(t, ks.last()) {
            1nat
        } else {
            0nat
        }
    }
}

/// The number of fixture `let`s at the top level of the body of the
/// function at `f`.
pub open spec fn fixture_let_count(t: Seq<SyntaxNodeView>, f: int) -> nat {
    match child_by_field(t, f, "body"@) {
        Some(b) => fixture_lets_in(t, kids(t, b)),
        None => 0,
    }
}

/// Count the fixture `let`s of the function at `f` (see
/// [`fixture_let_count`]).
pub fn count_fixture_lets(t: &Vec<SyntaxNode>, f: usize) -> (r: usize)
    requires
        f < t@.len(),
    ensures
        r == fixture_let_count(nodes_view(t@), f as int),
{
    let ghost tv = nodes_view(t@);
    let b = match child_by_field_exec(t, f, "body") {
        Some(b) => b,
        None => {
            return 0;
        },
    };
    let ks = kids_exec(t, b);
    let ghost kv = ks@.map_values(|k: usize| k as int);
    let mut n: usize = 0;
    let mut x: usize = 0;
    assert(kv.take(0) =~= Seq::<int>::empty());
    while x < ks.len()
        invariant
            tv == nodes_view(t@),
            kv == ks@.map_values(|k: usize| k as int),
            kv == kids(tv, b as int),
            x <= ks@.len(),
            n <= x,
            forall|k: int| 0 <= k < ks@.len() ==> #[trigger] ks@[k] < t@.len(),
            n == fixture_lets_in(tv, kv.take(x as int)),
        decreases ks@.len() - x,
    {
        let k = ks[x];
        assert(kv.take(x + 1).drop_last() == kv.take(x as int));
        assert(kv.take(x + 1).last() == k as int);
        if kind_is(t, k, "let_declaration") {
            let counts = match child_by_field_exec(t, k, "value") {
                Some(v) => is_fixture_value(t, v),
                None => true,
            };
            if counts {
                n = n + 1;
            }
        }
        x = x + 1;
    }
    assert(kv.take(ks@.len() as int) == kv);
    n
}

// ---------------------------------------------------------------------------
// Assertion messages
// ---------------------------------------------------------------------------

/// The first of the positions `ks` whose node has kind `kind`.
pub open spec fn first_of_kind(t: Seq<SyntaxNodeView>, ks: Seq<int>, kind: Seq<char>) -> Option<int>
    decreases ks.len(),
{
    if ks.len() == 0 {
        None
    } else if t[ks[0]].kind == kind {
        Some(ks[0])
    } else {
        first_of_kind(t, ks.skip(1), kind)
    }
}

/// The number of commas among the positions `ks`.
pub open spec fn comma_count(t: Seq<SyntaxNodeView>, ks: Seq<int>) -> nat
    decreases ks.len(),
{
    if ks.len() == 0 {
        0
    } else {
        comma_count(t, ks.drop_last()) + if t[ks.last()].kind == ","@ {
            1nat
        } else {
            0nat
        }
    }
}

/// The assertion macro at `a` carries a message: its token tree holds at
/// least two top-level commas for `*_eq!`/`*_ne!` macros, at least one for
/// the others.
pub open spec fn rust_assertion_has_message(t: Seq<SyntaxNodeView>, a: int) -> bool {
    let name = match child_by_field(t, a, "macro"@) {
        Some(m) => t[m].text,
        None => Seq::<char>::empty(),
    };
    let needed: nat = if contains_seq(name, "_eq"@) || contains_seq(name, "_ne"@) {
        2
    } else {
        1
    };
    match first_of_kind(t, kids(t, a), "token_tree"@) {
        Some(tt) => comma_count(t, kids(t, tt)) >= needed,
        None => false,
    }
}

/// The number of the assertions among the first `n` of `assertions` that
/// carry a message.
pub open spec fn rust_messages_upto(t: Seq<SyntaxNodeView>, assertions: Seq<usize>, n: int) -> nat
    decreases n,
{
    if n <= 0 {
        0
    } else {
        rust_messages_upto(t, assertions, n - 1) + if rust_assertion_has_message(
            t,
            assertions[n - 1] as int,
        ) {
            1nat
        } else {
            0nat
        }
    }
}

fn first_token_tree(t: &Vec<SyntaxNode>, a: usize) -> (r: Option<usize>)
    requires
        a < t@.len(),
    ensures
        match r {
            Some(k) => first_of_kind(nodes_view(t@), kids(nodes_view(t@), a as int), "token_tree"@)
                == Some(k as int) && k < t@.len(),
            None => first_of_kind(nodes_view(t@), kids(nodes_view(t@), a as int), "token_tree"@) is None,
        },
{
    let ghost tv = nodes_view(t@);
    let ks = kids_exec(t, a);
    let ghost kv = ks@.map_values(|k: usize| k as int);
    let mut x: usize = 0;
    assert(kv.skip(0) =~= kv);
    while x < ks.len()
        invariant
            tv == nodes_view(t@),
            kv == ks@.map_values(|k: usize| k as int),
            kv == kids(tv, a as int),
            x <= ks@.len(),
            forall|k: int| 0 <= k < ks@.len() ==> #[trigger] ks@[k] < t@.len(),
            first_of_kind(tv, kv.skip(x as int), "token_tree"@) == first_of_kind(tv, kv, "token_tree"@),
        decreases ks@.len() - x,
    {
        let k = ks[x];
        assert(kv.skip(x as int)[0] == k as int);
        assert(kv.skip(x as int).skip(1) == kv.skip(x + 1));
        if kind_is(t, k, "token_tree") {
            return Some(k);
        }
        x = x + 1;
    }
    None
}

fn comma_count_exec(t: &Vec<SyntaxNode>, tt: usize) -> (r: usize)
    requires
        tt < t@.len(),
    ensures
        r == comma_count(nodes_view(t@), kids(nodes_view(t@), tt as int)),
{
    let ghost tv = nodes_view(t@);
    let ks = kids_exec(t, tt);
    let ghost kv = ks@.map_values(|k: usize| k as int);
    let mut n: usize = 0;
    let mut x: usize = 0;
    assert(kv.take(0) =~= Seq::<int>::empty());
    while x < ks.len()
        invariant
            tv == nodes_view(t@),
            kv == ks@.map_values(|k: usize| k as int),
            kv == kids(tv, tt as int),
            x <= ks@.len(),
            n <= x,
            forall|k: int| 0 <= k < ks@.len() ==> #[trigger] ks@[k] < t@.len(),
            n == comma_count(tv, kv.take(x as int)),
        decreases ks@.len() - x,
    {
        let k = ks[x];
        assert(kv.take(x + 1).drop_last() == kv.take(x as int));
        assert(kv.take(x + 1).last() == k as int);
        if kind_is(t, k, ",") {
            n = n + 1;
        }
        x = x + 1;
    }
    assert(kv.take(ks@.len() as int) == kv);
    n
}

fn rust_assertion_has_message_exec(t: &Vec<SyntaxNode>, a: usize) -> (r: bool)
    requires
        a < t@.len(),
    ensures
        r == rust_assertion_has_message(nodes_view(t@), a as int),
{
    let name = match child_by_field_exec(t, a, "macro") {
        Some(m) => chars_of(t[m].text.as_str()),
        None => Vec::new(),
    };
    let needed: usize = if contains_lit(name.as_slice(), "_eq") || contains_lit(
        name.as_slice(),
        "_ne",
    ) {
        2
    } else {
        1
    };
    match first_token_tree(t, a) {
        Some(tt) => comma_count_exec(t, tt) >= needed,
        None => false,
    }
}

/// Count the assertion macros (nodes of `t`) that carry a failure message.
pub fn count_assertion_messages_rust(t: &Vec<SyntaxNode>, assertions: &Vec<usize>) -> (r: usize)
    requires
        forall|k: int| 0 <= k < assertions@.len() ==> #[trigger] assertions@[k] < t@.len(),
    ensures
        r == rust_messages_upto(nodes_view(t@), assertions@, assertions@.len() as int),
{
    let ghost tv = nodes_view(t@);
    let mut n: usize = 0;
    let mut i: usize = 0;
    while i < assertions.len()
        invariant
            tv == nodes_view(t@),
            forall|k: int| 0 <= k < assertions@.len() ==> #[trigger] assertions@[k] < t@.len(),
            i <= assertions@.len(),
            n <= i,
            n == rust_messages_upto(tv, assertions@, i as int),
        decreases assertions@.len() - i,
    {
        if rust_assertion_has_message_exec(t, assertions[i]) {
            n = n + 1;
        }
        i = i + 1;
    }
    n
}

} // verus!
