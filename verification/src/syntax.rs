//! Syntax trees of Rust and Python sources, as tree-sitter builds them,
//! held as plain values: every node of the tree in pre-order, with its
//! depth below the root.  Children, fields and subtrees are read off that
//! listing by the verified functions here.

use vstd::prelude::*;
use crate::text::{chars_of, eq_lit};

verus! {

/// One node of a syntax tree.
#[derive(Debug)]
pub struct SyntaxNode {
    /// The grammar kind (`use_declaration`, `identifier`, `(`, ...).
    pub kind: String,
    /// The field under which the parent holds this node, if any.
    pub field: Option<String>,
    /// The distance from the root (the root has depth 0).
    pub depth: usize,
    /// The first byte of the node in the source.
    pub start_byte: usize,
    /// The byte after the node in the source.
    pub end_byte: usize,
    /// The 0-based line on which the node starts.
    pub row: usize,
    /// The node is named in the grammar (not punctuation).
    pub named: bool,
    /// The source text of the node.
    pub text: String,
}

/// The mathematical content of a [`SyntaxNode`].
pub struct SyntaxNodeView {
    pub kind: Seq<char>,
    pub field: Option<Seq<char>>,
    pub depth: usize,
    pub start_byte: usize,
    pub end_byte: usize,
    pub row: usize,
    pub named: bool,
    pub text: Seq<char>,
}

impl View for SyntaxNode {
    type V = SyntaxNodeView;

    open spec fn view(&self) -> SyntaxNodeView {
        SyntaxNodeView {
            kind: self.kind@,
            field: match self.field {
                Some(f) => Some(f@),
                None => None,
            },
            depth: self.depth,
            start_byte: self.start_byte,
            end_byte: self.end_byte,
            row: self.row,
            named: self.named,
            text: self.text@,
        }
    }
}

/// The views of a node listing.
pub open spec fn nodes_view(v: Seq<SyntaxNode>) -> Seq<SyntaxNodeView> {
    v.map_values(|n: SyntaxNode| n@)
}

/// The view of an optional node listing.
pub open spec fn opt_nodes_view(r: Option<Vec<SyntaxNode>>) -> Option<Seq<SyntaxNodeView>> {
    match r {
        Some(v) => Some(nodes_view(v@)),
        None => None,
    }
}

/// The node listing of the syntax tree that tree-sitter's Rust grammar
/// builds for `source` (`None` when the parser gives no tree).
pub uninterp spec fn rust_syntax(source: Seq<char>) -> Option<Seq<SyntaxNodeView>>;

/// The node listing of the syntax tree that tree-sitter's Python grammar
/// builds for `source` (`None` when the parser gives no tree).
pub uninterp spec fn python_syntax(source: Seq<char>) -> Option<Seq<SyntaxNodeView>>;

/// Parse `source` with `tree_sitter::Parser` set to `tree_sitter_rust`'s
/// grammar and list the tree's nodes: `TreeCursor::goto_descendant(i)` for
/// each `i` below `Node::descendant_count` of the root, reading the node's
/// kind, field name, depth, byte range, start row, namedness and text.
/// The contract names that listing; it claims nothing of its shape.
#[verifier::external_body]
pub(crate) fn parse_rust(source: &str) -> (r: Option<Vec<SyntaxNode>>)
    ensures
        opt_nodes_view(r) == rust_syntax(source@),
{
    let mut p = tree_sitter::Parser::new();
    p.set_language(&tree_sitter_rust::LANGUAGE.into()).ok()?;
    let tree = p.parse(source, None)?;
    let mut c = tree.walk();
    Some((0..tree.root_node().descendant_count()).map(|i| {
        c.goto_descendant(i);
        let n = c.node();
        SyntaxNode { kind: n.kind().into(), field: c.field_name().map(Into::into),
            depth: c.depth() as usize, start_byte: n.start_byte(), end_byte: n.end_byte(),
            row: n.start_position().row, named: n.is_named(),
            text: n.utf8_text(source.as_bytes()).unwrap_or("").into() }
    }).collect())
}

/// Parse `source` with `tree_sitter::Parser` set to `tree_sitter_python`'s
/// grammar and list the tree's nodes, as [`parse_rust`] does.  The contract
/// names that listing; it claims nothing of its shape.
#[verifier::external_body]
pub(crate) fn parse_python(source: &str) -> (r: Option<Vec<SyntaxNode>>)
    ensures
        opt_nodes_view(r) == python_syntax(source@),
{
    let mut p = tree_sitter::Parser::new();
    p.set_language(&tree_sitter_python::LANGUAGE.into()).ok()?;
    let tree = p.parse(source, None)?;
    let mut c = tree.walk();
    Some((0..tree.root_node().descendant_count()).map(|i| {
        c.goto_descendant(i);
        let n = c.node();
        SyntaxNode { kind: n.kind().into(), field: c.field_name().map(Into::into),
            depth: c.depth() as usize, start_byte: n.start_byte(), end_byte: n.end_byte(),
            row: n.start_position().row, named: n.is_named(),
            text: n.utf8_text(source.as_bytes()).unwrap_or("").into() }
    }).collect())
}

/// The syntax tree of a Python source as a node listing (`None` when the
/// parser gives no tree).
pub fn python_tree(source: &str) -> (r: Option<Vec<SyntaxNode>>)
    ensures
        opt_nodes_view(r) == python_syntax(source@),
{
    parse_python(source)
}

/// The syntax tree of a Rust source as a node listing (`None` when the
/// parser gives no tree).
pub fn rust_tree(source: &str) -> (r: Option<Vec<SyntaxNode>>)
    ensures
        opt_nodes_view(r) == rust_syntax(source@),
{
    parse_rust(source)
}

// ---------------------------------------------------------------------------
// Reading the listing
// ---------------------------------------------------------------------------

/// The end of the subtree of node `i`, scanning from `j`: the first later
/// node that is not deeper than `i`, or the end of the listing.
pub open spec fn end_from(t: Seq<SyntaxNodeView>, i: int, j: int) -> int
    decreases t.len() - j,
{
    if j >= t.len() {
        t.len() as int
    } else if t[j].depth <= t[i].depth {
        j
    } else {
        end_from(t, i, j + 1)
    }
}

/// The position after the last node of the subtree of node `i`.
pub open spec fn subtree_end(t: Seq<SyntaxNodeView>, i: int) -> int {
    end_from(t, i, i + 1)
}

/// The children of node `i` among the positions `lo..hi`: the nodes one
/// level deeper than `i`.
pub open spec fn kids_in(t: Seq<SyntaxNodeView>, i: int, lo: int, hi: int) -> Seq<int>
    decreases hi - lo,
{
    if lo >= hi {
        Seq::<int>::empty()
    } else {
        let rest = kids_in(t, i, lo + 1, hi);
        if t[lo].depth == t[i].depth + 1 {
            seq![lo] + rest
        } else {
            rest
        }
    }
}

/// The children of node `i`, in order.
pub open spec fn kids(t: Seq<SyntaxNodeView>, i: int) -> Seq<int> {
    kids_in(t, i, i + 1, subtree_end(t, i))
}

/// The first of the positions `ks` whose node sits under field `f`.
pub open spec fn first_in_field(t: Seq<SyntaxNodeView>, ks: Seq<int>, f: Seq<char>) -> Option<
    int,
>
    decreases ks.len(),
{
    if ks.len() == 0 {
        None
    } else if t[ks[0]].field == Some(f) {
        Some(ks[0])
    } else {
        first_in_field(t, ks.skip(1), f)
    }
}

/// `Node::child_by_field_name`: the first child of `i` under field `f`.
pub open spec fn child_by_field(t: Seq<SyntaxNodeView>, i: int, f: Seq<char>) -> Option<int> {
    first_in_field(t, kids(t, i), f)
}

/// Positions of a listing are in range.
pub open spec fn positions_ok(t: Seq<SyntaxNodeView>, ks: Seq<int>) -> bool {
    forall|k: int| 0 <= k < ks.len() ==> 0 <= #[trigger] ks[k] < t.len()
}

proof fn lemma_end_from_bounds(t: Seq<SyntaxNodeView>, i: int, j: int)
    requires
        0 <= j <= t.len(),
    ensures
        j <= end_from(t, i, j) <= t.len(),
    decreases t.len() - j,
{
    if j < t.len() && t[j].depth > t[i].depth {
        lemma_end_from_bounds(t, i, j + 1);
    }
}

proof fn lemma_kids_in_bounds(t: Seq<SyntaxNodeView>, i: int, lo: int, hi: int)
    requires
        0 <= lo,
        hi <= t.len(),
    ensures
        forall|k: int| 0 <= k < kids_in(t, i, lo, hi).len() ==> lo <= #[trigger] kids_in(
            t,
            i,
            lo,
            hi,
        )[k] < hi,
    decreases hi - lo,
{
    if lo < hi {
        lemma_kids_in_bounds(t, i, lo + 1, hi);
        let rest = kids_in(t, i, lo + 1, hi);
        if t[lo].depth == t[i].depth + 1 {
            assert forall|k: int| 0 <= k < kids_in(t, i, lo, hi).len() implies lo
                <= #[trigger] kids_in(t, i, lo, hi)[k] < hi by {
                if k > 0 {
                    assert(kids_in(t, i, lo, hi)[k] == rest[k - 1]);
                }
            }
        }
    }
}

/// The subtree of node `i` ends after `i`, within the listing.
pub proof fn lemma_subtree_end(t: Seq<SyntaxNodeView>, i: int)
    requires
        0 <= i < t.len(),
    ensures
        i < subtree_end(t, i) <= t.len(),
{
    lemma_end_from_bounds(t, i, i + 1);
}

proof fn lemma_end_from_deeper(t: Seq<SyntaxNodeView>, i: int, j: int)
    requires
        0 <= j,
    ensures
        forall|k: int| j <= k < end_from(t, i, j) ==> #[trigger] t[k].depth > t[i].depth,
    decreases t.len() - j,
{
    if j < t.len() && t[j].depth > t[i].depth {
        lemma_end_from_deeper(t, i, j + 1);
    }
}

proof fn lemma_kids_in_order(t: Seq<SyntaxNodeView>, i: int, lo: int, hi: int)
    ensures
        forall|a: int, b: int|
            0 <= a < b < kids_in(t, i, lo, hi).len() ==> #[trigger] kids_in(t, i, lo, hi)[a]
                < #[trigger] kids_in(t, i, lo, hi)[b],
        forall|k: int|
            0 <= k < kids_in(t, i, lo, hi).len() ==> lo <= #[trigger] kids_in(t, i, lo, hi)[k]
                < hi && t[kids_in(t, i, lo, hi)[k]].depth == t[i].depth + 1,
    decreases hi - lo,
{
    if lo < hi {
        lemma_kids_in_order(t, i, lo + 1, hi);
        let rest = kids_in(t, i, lo + 1, hi);
        let ks = kids_in(t, i, lo, hi);
        if t[lo].depth == t[i].depth + 1 {
            assert forall|k: int| 0 < k < ks.len() implies #[trigger] ks[k] == rest[k - 1] by {}
            assert forall|a: int, b: int| 0 <= a < b < ks.len() implies #[trigger] ks[a]
                < #[trigger] ks[b] by {
                assert(ks[b] == rest[b - 1]);
                if a > 0 {
                    assert(ks[a] == rest[a - 1]);
                }
            }
        }
    }
}

/// The children of node `i` come in order, lie within its subtree one
/// level below it, and every node of its subtree is deeper than it.
pub proof fn lemma_kids(t: Seq<SyntaxNodeView>, i: int)
    requires
        0 <= i < t.len(),
    ensures
        forall|a: int, b: int|
            0 <= a < b < kids(t, i).len() ==> #[trigger] kids(t, i)[a] < #[trigger] kids(t, i)[b],
        forall|k: int|
            0 <= k < kids(t, i).len() ==> i < #[trigger] kids(t, i)[k] < subtree_end(t, i)
                && t[kids(t, i)[k]].depth == t[i].depth + 1,
        forall|j: int| i < j < subtree_end(t, i) ==> #[trigger] t[j].depth > t[i].depth,
        subtree_end(t, i) <= t.len(),
{
    lemma_end_from_bounds(t, i, i + 1);
    lemma_end_from_deeper(t, i, i + 1);
    lemma_kids_in_order(t, i, i + 1, subtree_end(t, i));
}

/// The first of the positions `ks` under field `f` is one of them.
pub proof fn lemma_first_in_field(t: Seq<SyntaxNodeView>, ks: Seq<int>, f: Seq<char>)
    ensures
        first_in_field(t, ks, f) matches Some(j) ==> ks.contains(j) && t[j].field == Some(f),
    decreases ks.len(),
{
    if ks.len() > 0 && t[ks[0]].field != Some(f) {
        lemma_first_in_field(t, ks.skip(1), f);
        if let Some(j) = first_in_field(t, ks.skip(1), f) {
            let k = choose|k: int| 0 <= k < ks.skip(1).len() && ks.skip(1)[k] == j;
            assert(ks[k + 1] == j);
        }
    } else if ks.len() > 0 {
        assert(ks[0] == ks[0]);
        assert(ks.contains(ks[0]));
    }
}

/// The position after the subtree of node `i`.
pub fn subtree_end_exec(t: &Vec<SyntaxNode>, i: usize) -> (r: usize)
    requires
        i < t@.len(),
    ensures
        r == subtree_end(nodes_view(t@), i as int),
        i < r <= t@.len(),
{
    let ghost tv = nodes_view(t@);
    let d = t[i].depth;
    let n = t.len();
    let mut j = i + 1;
    while j < t.len() && t[j].depth > d
        invariant
            tv == nodes_view(t@),
            i < j <= t@.len(),
            d == tv[i as int].depth,
            end_from(tv, i as int, i + 1) == end_from(tv, i as int, j as int),
        decreases t@.len() - j,
    {
        j = j + 1;
    }
    j
}

/// The children of node `i`, in order.
pub fn kids_exec(t: &Vec<SyntaxNode>, i: usize) -> (r: Vec<usize>)
    requires
        i < t@.len(),
    ensures
        r@.map_values(|k: usize| k as int) == kids(nodes_view(t@), i as int),
        forall|k: int| 0 <= k < r@.len() ==> i < #[trigger] r@[k] < t@.len(),
{
    let ghost tv = nodes_view(t@);
    let end = subtree_end_exec(t, i);
    let d = t[i].depth;
    let mut out: Vec<usize> = Vec::new();
    let mut lo = i + 1;
    while lo < end
        invariant
            tv == nodes_view(t@),
            i < lo <= end <= t@.len(),
            d == tv[i as int].depth,
            out@.map_values(|k: usize| k as int) + kids_in(tv, i as int, lo as int, end as int)
                == kids(tv, i as int),
            end == subtree_end(tv, i as int),
            forall|k: int| 0 <= k < out@.len() ==> i < #[trigger] out@[k] < lo,
        decreases end - lo,
    {
        let ghost before = out@.map_values(|k: usize| k as int);
        if d < usize::MAX && t[lo].depth == d + 1 {
            out.push(lo);
            assert(out@.map_values(|k: usize| k as int) =~= before.push(lo as int));
        } else {
            assert(out@.map_values(|k: usize| k as int) =~= before);
        }
        lo = lo + 1;
    }
    assert(kids_in(tv, i as int, end as int, end as int) =~= Seq::<int>::empty());
    out
}

/// The node `j` sits under field `f`.
pub fn field_is(t: &Vec<SyntaxNode>, j: usize, f: &str) -> (r: bool)
    requires
        j < t@.len(),
    ensures
        r == (nodes_view(t@)[j as int].field == Some(f@)),
{
    match &t[j].field {
        Some(s) => {
            let v = chars_of(s.as_str());
            eq_lit(v.as_slice(), f)
        },
        None => false,
    }
}

/// The node `j` has kind `k`.
pub fn kind_is(t: &Vec<SyntaxNode>, j: usize, k: &str) -> (r: bool)
    requires
        j < t@.len(),
    ensures
        r == (nodes_view(t@)[j as int].kind == k@),
{
    let v = chars_of(t[j].kind.as_str());
    eq_lit(v.as_slice(), k)
}

/// `Node::child_by_field_name`: the first child of `i` under field `f`.
pub fn child_by_field_exec(t: &Vec<SyntaxNode>, i: usize, f: &str) -> (r: Option<usize>)
    requires
        i < t@.len(),
    ensures
        match r {
            Some(j) => child_by_field(nodes_view(t@), i as int, f@) == Some(j as int) && i < j
                < t@.len(),
            None => child_by_field(nodes_view(t@), i as int, f@) is None,
        },
{
    let ghost tv = nodes_view(t@);
    let ks = kids_exec(t, i);
    let ghost kv = ks@.map_values(|k: usize| k as int);
    let mut x: usize = 0;
    assert(kv.skip(0) =~= kv);
    while x < ks.len()
        invariant
            tv == nodes_view(t@),
            kv == ks@.map_values(|k: usize| k as int),
            kv == kids(tv, i as int),
            x <= ks@.len(),
            forall|k: int| 0 <= k < ks@.len() ==> i < #[trigger] ks@[k] < t@.len(),
            first_in_field(tv, kv.skip(x as int), f@) == child_by_field(tv, i as int, f@),
        decreases ks@.len() - x,
    {
        let j = ks[x];
        assert(kv.skip(x as int)[0] == j as int);
        assert(kv.skip(x as int).skip(1) == kv.skip(x + 1));
        if field_is(t, j, f) {
            return Some(j);
        }
        x = x + 1;
    }
    None
}

/// The `n`-th (counting from 0) named node among the positions `ks`.
pub open spec fn nth_named(t: Seq<SyntaxNodeView>, ks: Seq<int>, n: nat) -> Option<int>
    decreases ks.len(),
{
    if ks.len() == 0 {
        None
    } else if t[ks[0]].named {
        if n == 0 {
            Some(ks[0])
        } else {
            nth_named(t, ks.skip(1), (n - 1) as nat)
        }
    } else {
        nth_named(t, ks.skip(1), n)
    }
}

/// `Node::named_child(n)`: the `n`-th named child of node `i`.
pub open spec fn named_child(t: Seq<SyntaxNodeView>, i: int, n: nat) -> Option<int> {
    nth_named(t, kids(t, i), n)
}

/// `Node::named_child(n)`: the `n`-th named child of node `i`.
pub fn named_child_exec(t: &Vec<SyntaxNode>, i: usize, n: usize) -> (r: Option<usize>)
    requires
        i < t@.len(),
    ensures
        match r {
            Some(j) => named_child(nodes_view(t@), i as int, n as nat) == Some(j as int) && i < j
                < t@.len(),
            None => named_child(nodes_view(t@), i as int, n as nat) is None,
        },
{
    let ghost tv = nodes_view(t@);
    let ks = kids_exec(t, i);
    let ghost kv = ks@.map_values(|k: usize| k as int);
    let mut x: usize = 0;
    let mut seen: usize = 0;
    assert(kv.skip(0) =~= kv);
    while x < ks.len()
        invariant
            tv == nodes_view(t@),
            kv == ks@.map_values(|k: usize| k as int),
            kv == kids(tv, i as int),
            x <= ks@.len(),
            seen <= n,
            forall|k: int| 0 <= k < ks@.len() ==> i < #[trigger] ks@[k] < t@.len(),
            nth_named(tv, kv.skip(x as int), (n - seen) as nat) == named_child(
                tv,
                i as int,
                n as nat,
            ),
        decreases ks@.len() - x,
    {
        let j = ks[x];
        assert(kv.skip(x as int)[0] == j as int);
        assert(kv.skip(x as int).skip(1) == kv.skip(x + 1));
        if t[j].named {
            if seen == n {
                return Some(j);
            }
            seen = seen + 1;
        }
        x = x + 1;
    }
    None
}

/// A child found under a field lies after its parent, within the listing.
pub proof fn lemma_child_after(t: Seq<SyntaxNodeView>, i: int, f: Seq<char>)
    requires
        0 <= i < t.len(),
    ensures
        child_by_field(t, i, f) matches Some(j) ==> i < j < t.len(),
{
    lemma_end_from_bounds(t, i, i + 1);
    lemma_kids_in_bounds(t, i, i + 1, subtree_end(t, i));
    lemma_first_in_field(t, kids(t, i), f);
    if let Some(j) = child_by_field(t, i, f) {
        let k = choose|k: int| 0 <= k < kids(t, i).len() && kids(t, i)[k] == j;
        assert(i + 1 <= kids(t, i)[k]);
    }
}

/// The number of named nodes among the positions `ks`.
pub open spec fn named_count(t: Seq<SyntaxNodeView>, ks: Seq<int>) -> nat
    decreases ks.len(),
{
    if ks.len() == 0 {
        0
    } else {
        named_count(t, ks.drop_last()) + if t[ks.last()].named {
            1nat
        } else {
            0nat
        }
    }
}

/// `Node::named_child_count`: the number of named children of node `i`.
pub open spec fn named_child_count(t: Seq<SyntaxNodeView>, i: int) -> nat {
    named_count(t, kids(t, i))
}

/// `Node::named_child_count`: the number of named children of node `i`.
pub fn named_child_count_exec(t: &Vec<SyntaxNode>, i: usize) -> (r: usize)
    requires
        i < t@.len(),
    ensures
        r == named_child_count(nodes_view(t@), i as int),
{
    let ghost tv = nodes_view(t@);
    let ks = kids_exec(t, i);
    let ghost kv = ks@.map_values(|k: usize| k as int);
    let mut x: usize = 0;
    let mut n: usize = 0;
    assert(kv.take(0) =~= Seq::<int>::empty());
    while x < ks.len()
        invariant
            tv == nodes_view(t@),
            kv == ks@.map_values(|k: usize| k as int),
            kv == kids(tv, i as int),
            x <= ks@.len(),
            n <= x,
            forall|k: int| 0 <= k < ks@.len() ==> #[trigger] ks@[k] < t@.len(),
            n == named_count(tv, kv.take(x as int)),
        decreases ks@.len() - x,
    {
        assert(kv.take(x + 1).drop_last() == kv.take(x as int));
        assert(kv.take(x + 1).last() == ks@[x as int] as int);
        if t[ks[x]].named {
            n = n + 1;
        }
        x = x + 1;
    }
    assert(kv.take(ks@.len() as int) == kv);
    n
}

/// The last node before position `j` that is shallower than node `i`.
pub open spec fn last_shallower(t: Seq<SyntaxNodeView>, i: int, j: int) -> Option<int>
    decreases j,
{
    if j <= 0 {
        None
    } else if t[j - 1].depth < t[i].depth {
        Some(j - 1)
    } else {
        last_shallower(t, i, j - 1)
    }
}

/// `Node::parent`: in the pre-order listing, the nearest earlier node that
/// is shallower than node `i` (none for the root).
pub open spec fn parent_of(t: Seq<SyntaxNodeView>, i: int) -> Option<int> {
    last_shallower(t, i, i)
}

/// `Node::parent`: the parent of node `i` (see [`parent_of`]).
pub fn parent_exec(t: &Vec<SyntaxNode>, i: usize) -> (r: Option<usize>)
    requires
        i < t@.len(),
    ensures
        match r {
            Some(p) => parent_of(nodes_view(t@), i as int) == Some(p as int) && p < i,
            None => parent_of(nodes_view(t@), i as int) is None,
        },
{
    let ghost tv = nodes_view(t@);
    let d = t[i].depth;
    let mut j = i;
    while j > 0
        invariant
            tv == nodes_view(t@),
            j <= i < t@.len(),
            d == tv[i as int].depth,
            last_shallower(tv, i as int, i as int) == last_shallower(tv, i as int, j as int),
        decreases j,
    {
        if t[j - 1].depth < d {
            return Some(j - 1);
        }
        j = j - 1;
    }
    None
}

} // verus!
