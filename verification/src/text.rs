//! Character-sequence helpers shared by the path and source-text logic.
//!
//! Text is modelled as `Seq<char>`, the view of `str` and `String`.  Each
//! helper mirrors the std operation that the analysis relies on (`split`,
//! `trim`, `lines`, `find`, `replace`, ...) with a spec function that states
//! its result and an executable function proved against it.

use vstd::prelude::*;

verus! {

// ---------------------------------------------------------------------------
// Specifications
// ---------------------------------------------------------------------------

/// `s` begins with `p`.
pub open spec fn starts_with(s: Seq<char>, p: Seq<char>) -> bool {
    p.len() <= s.len() && s.take(p.len() as int) == p
}

/// `s` ends with `p`.
pub open spec fn ends_with(s: Seq<char>, p: Seq<char>) -> bool {
    p.len() <= s.len() && s.skip(s.len() - p.len()) == p
}

/// `s` without the prefix `p`, when it has it (`str::strip_prefix`).
pub open spec fn strip_prefix(s: Seq<char>, p: Seq<char>) -> Option<Seq<char>> {
    if starts_with(s, p) {
        Some(s.skip(p.len() as int))
    } else {
        None
    }
}

/// `s` without the suffix `p`, when it has it (`str::strip_suffix`).
pub open spec fn strip_suffix(s: Seq<char>, p: Seq<char>) -> Option<Seq<char>> {
    if ends_with(s, p) {
        Some(s.take(s.len() - p.len()))
    } else {
        None
    }
}

/// `p` occurs in `s` at position `i`.
pub open spec fn occurs_at(s: Seq<char>, p: Seq<char>, i: int) -> bool {
    0 <= i && i + p.len() <= s.len() && s.subrange(i, i + p.len()) == p
}

/// `p` occurs somewhere in `s` (`str::contains` with a string pattern).
pub open spec fn contains_seq(s: Seq<char>, p: Seq<char>) -> bool {
    exists|i: int| occurs_at(s, p, i)
}

/// The position of the first `c` in `s` (`str::find` with a char).
pub open spec fn find_char(s: Seq<char>, c: char) -> Option<int>
    decreases s.len(),
{
    if s.len() == 0 {
        None
    } else if s[0] == c {
        Some(0)
    } else {
        match find_char(s.skip(1), c) {
            Some(k) => Some(k + 1),
            None => None,
        }
    }
}

/// The position of the last `c` in `s` (`str::rfind` with a char).
pub open spec fn rfind_char(s: Seq<char>, c: char) -> Option<int>
    decreases s.len(),
{
    if s.len() == 0 {
        None
    } else if s.last() == c {
        Some(s.len() - 1)
    } else {
        rfind_char(s.drop_last(), c)
    }
}

/// The pieces of `s` between occurrences of `sep` (`str::split` with a char):
/// always at least one piece, empty pieces kept.
pub open spec fn split_char(s: Seq<char>, sep: char) -> Seq<Seq<char>>
    decreases s.len(),
{
    if s.len() == 0 {
        seq![Seq::<char>::empty()]
    } else {
        let p = split_char(s.drop_last(), sep);
        if s.last() == sep {
            p.push(Seq::<char>::empty())
        } else {
            p.update(p.len() - 1, p.last().push(s.last()))
        }
    }
}

/// Unicode `White_Space`, as `char::is_whitespace` decides it.
pub open spec fn is_ws(c: char) -> bool {
    ||| ('\t' <= c && c <= '\r')
    ||| c == ' '
    ||| c == '\u{85}'
    ||| c == '\u{a0}'
    ||| c == '\u{1680}'
    ||| ('\u{2000}' <= c && c <= '\u{200a}')
    ||| c == '\u{2028}'
    ||| c == '\u{2029}'
    ||| c == '\u{202f}'
    ||| c == '\u{205f}'
    ||| c == '\u{3000}'
}

/// `s` without leading whitespace (`str::trim_start`).
pub open spec fn trim_start(s: Seq<char>) -> Seq<char>
    decreases s.len(),
{
    if s.len() > 0 && is_ws(s[0]) {
        trim_start(s.skip(1))
    } else {
        s
    }
}

/// `s` without trailing whitespace (`str::trim_end`).
pub open spec fn trim_end(s: Seq<char>) -> Seq<char>
    decreases s.len(),
{
    if s.len() > 0 && is_ws(s.last()) {
        trim_end(s.drop_last())
    } else {
        s
    }
}

/// `s` without surrounding whitespace (`str::trim`).
pub open spec fn trim(s: Seq<char>) -> Seq<char> {
    trim_end(trim_start(s))
}

/// One line as `str::lines` yields it: the `\r` of a `\r\n` ending is dropped.
pub open spec fn strip_cr(line: Seq<char>) -> Seq<char> {
    if line.len() > 0 && line.last() == '\r' {
        line.drop_last()
    } else {
        line
    }
}

/// The lines of `s` (`str::lines`): split at `\n`, no final empty line when
/// `s` ends with `\n`, and a `\r` before each `\n` removed.
pub open spec fn lines(s: Seq<char>) -> Seq<Seq<char>> {
    let p = split_char(s, '\n');
    if s.len() == 0 {
        Seq::<Seq<char>>::empty()
    } else {
        let n = if s.last() == '\n' { p.len() - 1 } else { p.len() as int };
        Seq::new(
            n as nat,
            |i: int|
                if i < p.len() - 1 {
                    strip_cr(p[i])
                } else {
                    p[i]
                },
        )
    }
}

/// Every `from` in `s` replaced by `to`, left to right without overlap
/// (`str::replace` with a string pattern).
pub open spec fn replace_seq(s: Seq<char>, from: Seq<char>, to: Seq<char>) -> Seq<char>
    decreases s.len(),
{
    if s.len() == 0 {
        s
    } else if from.len() > 0 && starts_with(s, from) {
        to + replace_seq(s.skip(from.len() as int), from, to)
    } else {
        seq![s[0]] + replace_seq(s.skip(1), from, to)
    }
}

/// `s` repeated `n` times (`str::repeat`).
pub open spec fn repeat(s: Seq<char>, n: nat) -> Seq<char>
    decreases n,
{
    if n == 0 {
        Seq::<char>::empty()
    } else {
        repeat(s, (n - 1) as nat) + s
    }
}

/// `s` without leading characters that satisfy `p` (`str::trim_start_matches`
/// with a char predicate).
pub open spec fn trim_start_by(s: Seq<char>, p: spec_fn(char) -> bool) -> Seq<char>
    decreases s.len(),
{
    if s.len() > 0 && p(s[0]) {
        trim_start_by(s.skip(1), p)
    } else {
        s
    }
}

/// `s` without trailing characters that satisfy `p`.
pub open spec fn trim_end_by(s: Seq<char>, p: spec_fn(char) -> bool) -> Seq<char>
    decreases s.len(),
{
    if s.len() > 0 && p(s.last()) {
        trim_end_by(s.drop_last(), p)
    } else {
        s
    }
}

/// `s` with every leading copy of `p` removed (`str::trim_start_matches` with
/// a string pattern).
pub open spec fn trim_start_seq(s: Seq<char>, p: Seq<char>) -> Seq<char>
    decreases s.len(),
{
    if p.len() > 0 && starts_with(s, p) {
        trim_start_seq(s.skip(p.len() as int), p)
    } else {
        s
    }
}

/// `s` with every trailing copy of `p` removed (`str::trim_end_matches`).
pub open spec fn trim_end_seq(s: Seq<char>, p: Seq<char>) -> Seq<char>
    decreases s.len(),
{
    if p.len() > 0 && ends_with(s, p) {
        trim_end_seq(s.take(s.len() - p.len()), p)
    } else {
        s
    }
}

/// The view of an optional string.
pub open spec fn opt_view(o: Option<&str>) -> Option<Seq<char>> {
    match o {
        Some(s) => Some(s@),
        None => None,
    }
}

/// The view of an optional owned string.
pub open spec fn opt_string_view(o: Option<String>) -> Option<Seq<char>> {
    match o {
        Some(s) => Some(s@),
        None => None,
    }
}

/// The views of a sequence of character vectors.
pub open spec fn nested_view(v: Seq<Vec<char>>) -> Seq<Seq<char>> {
    v.map_values(|x: Vec<char>| x@)
}

/// The views of a sequence of strings.
pub open spec fn strings_view(v: Seq<String>) -> Seq<Seq<char>> {
    v.map_values(|s: String| s@)
}

// ---------------------------------------------------------------------------
// Lemmas
// ---------------------------------------------------------------------------

/// `split_char` always yields at least one piece.
pub proof fn lemma_split_nonempty(s: Seq<char>, sep: char)
    ensures
        split_char(s, sep).len() >= 1,
    decreases s.len(),
{
    if s.len() > 0 {
        lemma_split_nonempty(s.drop_last(), sep);
    }
}

/// A left-to-right scan that stops at `i` agrees with `find_char`.
proof fn lemma_find_char_at(s: Seq<char>, c: char, i: int)
    requires
        0 <= i <= s.len(),
        forall|j: int| 0 <= j < i ==> s[j] != c,
    ensures
        i < s.len() && s[i] == c ==> find_char(s, c) == Some(i),
        i == s.len() ==> find_char(s, c) is None,
    decreases i,
{
    if i > 0 {
        lemma_find_char_at(s.skip(1), c, i - 1);
    }
}

/// A right-to-left scan that stops at `i` agrees with `rfind_char`.
proof fn lemma_rfind_char_at(s: Seq<char>, c: char, i: int)
    requires
        0 <= i <= s.len(),
        forall|j: int| i <= j < s.len() ==> s[j] != c,
    ensures
        i > 0 && s[i - 1] == c ==> rfind_char(s, c) == Some(i - 1),
        i == 0 ==> rfind_char(s, c) is None,
    decreases s.len() - i,
{
    if i < s.len() {
        lemma_rfind_char_at(s.drop_last(), c, i);
    }
}

/// `rfind_char` names a position of `c`, and none after it holds `c`.
pub proof fn lemma_rfind_char_props(s: Seq<char>, c: char)
    ensures
        rfind_char(s, c) matches Some(k) ==> 0 <= k < s.len() && s[k] == c && forall|j: int|
            k < j < s.len() ==> s[j] != c,
        rfind_char(s, c) is None ==> forall|j: int| 0 <= j < s.len() ==> s[j] != c,
    decreases s.len(),
{
    if s.len() > 0 {
        lemma_rfind_char_props(s.drop_last(), c);
        assert forall|j: int| 0 <= j < s.len() - 1 implies s.drop_last()[j] == s[j] by {}
    }
}

/// `find_char` names a position of `c`, and none before it holds `c`.
pub proof fn lemma_find_char_props(s: Seq<char>, c: char)
    ensures
        find_char(s, c) matches Some(k) ==> 0 <= k < s.len() && s[k] == c && forall|j: int|
            0 <= j < k ==> s[j] != c,
        find_char(s, c) is None ==> forall|j: int| 0 <= j < s.len() ==> s[j] != c,
    decreases s.len(),
{
    if s.len() > 0 {
        lemma_find_char_props(s.skip(1), c);
        if s[0] != c {
            assert forall|j: int| 1 <= j < s.len() implies s[j] == s.skip(1)[j - 1] by {}
        }
    }
}

// ---------------------------------------------------------------------------
// Executable helpers
// ---------------------------------------------------------------------------

/// `String::push` appends one character.
pub assume_specification[ String::push ](s: &mut String, ch: char)
    ensures
        final(s)@ == old(s)@.push(ch),
;

/// The characters of `s`, in order.
pub fn chars_of(s: &str) -> (v: Vec<char>)
    ensures
        v@ == s@,
{
    let n = s.unicode_len();
    let mut v: Vec<char> = Vec::new();
    let mut i: usize = 0;
    while i < n
        invariant
            n == s@.len(),
            i <= n,
            v@ == s@.take(i as int),
        decreases n - i,
    {
        let c = s.get_char(i);
        v.push(c);
        i = i + 1;
        assert(v@ == s@.take(i as int));
    }
    v
}

/// A `String` spelling `v`.
pub fn string_of(v: &[char]) -> (s: String)
    ensures
        s@ == v@,
{
    let mut s = String::new();
    let mut i: usize = 0;
    while i < v.len()
        invariant
            i <= v@.len(),
            s@ == v@.take(i as int),
        decreases v@.len() - i,
    {
        s.push(v[i]);
        i = i + 1;
        assert(s@ == v@.take(i as int));
    }
    assert(v@.take(v@.len() as int) == v@);
    s
}

/// A copy of `v[from..to]`.
pub fn slice_chars(v: &[char], from: usize, to: usize) -> (r: Vec<char>)
    requires
        from <= to <= v@.len(),
    ensures
        r@ == v@.subrange(from as int, to as int),
{
    let mut r: Vec<char> = Vec::new();
    let mut i = from;
    while i < to
        invariant
            from <= i <= to,
            to <= v@.len(),
            r@ == v@.subrange(from as int, i as int),
        decreases to - i,
    {
        r.push(v[i]);
        i = i + 1;
        assert(r@ == v@.subrange(from as int, i as int));
    }
    r
}

/// `a` followed by `b`.
pub fn concat(a: &[char], b: &[char]) -> (r: Vec<char>)
    ensures
        r@ == a@ + b@,
{
    let mut r = slice_chars(a, 0, a.len());
    let mut i: usize = 0;
    assert(a@.subrange(0, a@.len() as int) == a@);
    while i < b.len()
        invariant
            i <= b@.len(),
            r@ == a@ + b@.take(i as int),
        decreases b@.len() - i,
    {
        r.push(b[i]);
        i = i + 1;
        assert(r@ == a@ + b@.take(i as int));
    }
    assert(b@.take(b@.len() as int) == b@);
    r
}

/// `v` spells exactly `lit`.
pub fn eq_lit(v: &[char], lit: &str) -> (b: bool)
    ensures
        b == (v@ == lit@),
{
    let n = lit.unicode_len();
    if v.len() != n {
        return false;
    }
    let mut i: usize = 0;
    while i < n
        invariant
            n == lit@.len(),
            v@.len() == n,
            i <= n,
            forall|j: int| 0 <= j < i ==> v@[j] == lit@[j],
        decreases n - i,
    {
        if v[i] != lit.get_char(i) {
            return false;
        }
        i = i + 1;
    }
    assert(v@ =~= lit@);
    true
}

/// `v` and `w` are the same characters.
pub fn eq_chars(v: &[char], w: &[char]) -> (b: bool)
    ensures
        b == (v@ == w@),
{
    if v.len() != w.len() {
        return false;
    }
    let mut i: usize = 0;
    while i < v.len()
        invariant
            v@.len() == w@.len(),
            i <= v@.len(),
            forall|j: int| 0 <= j < i ==> v@[j] == w@[j],
        decreases v@.len() - i,
    {
        if v[i] != w[i] {
            return false;
        }
        i = i + 1;
    }
    assert(v@ =~= w@);
    true
}

/// `p` occurs in `v` at position `i`.
pub fn occurs_at_exec(v: &[char], p: &[char], i: usize) -> (b: bool)
    ensures
        b == occurs_at(v@, p@, i as int),
{
    if i > v.len() || p.len() > v.len() - i {
        return false;
    }
    let vlen = v.len();
    let mut j: usize = 0;
    while j < p.len()
        invariant
            vlen == v@.len(),
            i + p@.len() <= vlen,
            j <= p@.len(),
            forall|k: int| 0 <= k < j ==> v@[i + k] == p@[k],
        decreases p@.len() - j,
    {
        if v[i + j] != p[j] {
            assert(v@.subrange(i as int, i + p@.len())[j as int] != p@[j as int]);
            return false;
        }
        j = j + 1;
    }
    assert(v@.subrange(i as int, i + p@.len()) =~= p@);
    true
}

/// `v` begins with `p`.
pub fn starts_with_chars(v: &[char], p: &[char]) -> (b: bool)
    ensures
        b == starts_with(v@, p@),
{
    let r = occurs_at_exec(v, p, 0);
    assert(v@.subrange(0, p@.len() as int) == v@.take(p@.len() as int));
    r
}

/// `v` ends with `p`.
pub fn ends_with_chars(v: &[char], p: &[char]) -> (b: bool)
    ensures
        b == ends_with(v@, p@),
{
    if p.len() > v.len() {
        return false;
    }
    let r = occurs_at_exec(v, p, v.len() - p.len());
    assert(v@.subrange(v@.len() - p@.len(), v@.len() as int) == v@.skip(v@.len() - p@.len()));
    r
}

/// `v` begins with `lit`.
pub fn starts_with_lit(v: &[char], lit: &str) -> (b: bool)
    ensures
        b == starts_with(v@, lit@),
{
    let p = chars_of(lit);
    starts_with_chars(v, p.as_slice())
}

/// `v` ends with `lit`.
pub fn ends_with_lit(v: &[char], lit: &str) -> (b: bool)
    ensures
        b == ends_with(v@, lit@),
{
    let p = chars_of(lit);
    ends_with_chars(v, p.as_slice())
}

/// `p` occurs somewhere in `v`.
pub fn contains_chars(v: &[char], p: &[char]) -> (b: bool)
    ensures
        b == contains_seq(v@, p@),
{
    if p.len() > v.len() {
        assert forall|i: int| !occurs_at(v@, p@, i) by {}
        return false;
    }
    let mut i: usize = 0;
    let last = v.len() - p.len();
    loop
        invariant_except_break
            last + p@.len() == v@.len(),
            i <= last,
            forall|k: int| 0 <= k < i ==> !occurs_at(v@, p@, k),
        ensures
            forall|k: int| 0 <= k <= last ==> !occurs_at(v@, p@, k),
        decreases last - i,
    {
        if occurs_at_exec(v, p, i) {
            return true;
        }
        if i == last {
            break;
        }
        i = i + 1;
    }
    assert forall|k: int| !occurs_at(v@, p@, k) by {
        if 0 <= k <= last {
        }
    }
    false
}

/// `lit` occurs somewhere in `v`.
pub fn contains_lit(v: &[char], lit: &str) -> (b: bool)
    ensures
        b == contains_seq(v@, lit@),
{
    let p = chars_of(lit);
    contains_chars(v, p.as_slice())
}

/// `c` occurs in `v`.
pub fn contains_char(v: &[char], c: char) -> (b: bool)
    ensures
        b == v@.contains(c),
{
    let mut i: usize = 0;
    while i < v.len()
        invariant
            i <= v@.len(),
            forall|j: int| 0 <= j < i ==> v@[j] != c,
        decreases v@.len() - i,
    {
        if v[i] == c {
            return true;
        }
        i = i + 1;
    }
    false
}

/// The position of the first `c` in `v`.
pub fn find_char_exec(v: &[char], c: char) -> (r: Option<usize>)
    ensures
        match r {
            Some(k) => find_char(v@, c) == Some(k as int),
            None => find_char(v@, c) is None,
        },
{
    let mut i: usize = 0;
    while i < v.len()
        invariant
            i <= v@.len(),
            forall|j: int| 0 <= j < i ==> v@[j] != c,
        decreases v@.len() - i,
    {
        if v[i] == c {
            proof {
                lemma_find_char_at(v@, c, i as int);
            }
            return Some(i);
        }
        i = i + 1;
    }
    proof {
        lemma_find_char_at(v@, c, i as int);
    }
    None
}

/// The position of the last `c` in `v`.
pub fn rfind_char_exec(v: &[char], c: char) -> (r: Option<usize>)
    ensures
        match r {
            Some(k) => rfind_char(v@, c) == Some(k as int),
            None => rfind_char(v@, c) is None,
        },
{
    let mut i: usize = v.len();
    while i > 0
        invariant
            i <= v@.len(),
            forall|j: int| i <= j < v@.len() ==> v@[j] != c,
        decreases i,
    {
        if v[i - 1] == c {
            proof {
                lemma_rfind_char_at(v@, c, i as int);
            }
            return Some(i - 1);
        }
        i = i - 1;
    }
    proof {
        lemma_rfind_char_at(v@, c, 0);
    }
    None
}

/// The pieces of `v` between occurrences of `sep`.
pub fn split_char_exec(v: &[char], sep: char) -> (r: Vec<Vec<char>>)
    ensures
        nested_view(r@) == split_char(v@, sep),
{
    let mut parts: Vec<Vec<char>> = Vec::new();
    let mut cur: Vec<char> = Vec::new();
    let mut i: usize = 0;
    while i < v.len()
        invariant
            i <= v@.len(),
            nested_view(parts@).push(cur@) == split_char(v@.take(i as int), sep),
        decreases v@.len() - i,
    {
        proof {
            lemma_split_nonempty(v@.take(i as int), sep);
        }
        let ghost prev = v@.take(i as int);
        let ghost old_parts = nested_view(parts@);
        let ghost old_cur = cur@;
        let c = v[i];
        if c == sep {
            parts.push(cur);
            cur = Vec::new();
            assert(nested_view(parts@) =~= old_parts.push(old_cur));
        } else {
            cur.push(c);
            assert(nested_view(parts@) =~= old_parts);
        }
        i = i + 1;
        assert(v@.take(i as int).drop_last() == prev);
        assert(v@.take(i as int).last() == c);
        assert(nested_view(parts@).push(cur@) =~= split_char(v@.take(i as int), sep));
    }
    assert(v@.take(v@.len() as int) == v@);
    let ghost old_parts = nested_view(parts@);
    let ghost old_cur = cur@;
    parts.push(cur);
    assert(nested_view(parts@) =~= old_parts.push(old_cur));
    parts
}

/// Whitespace as `char::is_whitespace` decides it.
pub fn is_ws_exec(c: char) -> (b: bool)
    ensures
        b == is_ws(c),
{
    ('\t' <= c && c <= '\r') || c == ' ' || c == '\u{85}' || c == '\u{a0}' || c == '\u{1680}'
        || ('\u{2000}' <= c && c <= '\u{200a}') || c == '\u{2028}' || c == '\u{2029}' || c
        == '\u{202f}' || c == '\u{205f}' || c == '\u{3000}'
}

proof fn lemma_trim_start_skip(s: Seq<char>, i: int)
    requires
        0 <= i <= s.len(),
        forall|j: int| 0 <= j < i ==> is_ws(s[j]),
    ensures
        trim_start(s) == trim_start(s.skip(i)),
    decreases i,
{
    if i > 0 {
        assert(s.skip(1).skip(i - 1) == s.skip(i));
        assert forall|j: int| 0 <= j < i - 1 implies is_ws(s.skip(1)[j]) by {
            assert(s.skip(1)[j] == s[j + 1]);
        }
        assert(is_ws(s[0]));
        lemma_trim_start_skip(s.skip(1), i - 1);
        assert(trim_start(s) == trim_start(s.skip(1)));
    } else {
        assert(s.skip(0) =~= s);
    }
}

proof fn lemma_trim_end_take(s: Seq<char>, i: int)
    requires
        0 <= i <= s.len(),
        forall|j: int| i <= j < s.len() ==> is_ws(s[j]),
    ensures
        trim_end(s) == trim_end(s.take(i)),
    decreases s.len() - i,
{
    if i < s.len() {
        assert(s.drop_last().take(i) == s.take(i));
        assert forall|j: int| i <= j < s.len() - 1 implies is_ws(s.drop_last()[j]) by {
            assert(s.drop_last()[j] == s[j]);
        }
        assert(is_ws(s.last()));
        lemma_trim_end_take(s.drop_last(), i);
        assert(trim_end(s) == trim_end(s.drop_last()));
    } else {
        assert(s.take(i) =~= s);
    }
}

/// `v` without surrounding whitespace.
pub fn trim_exec(v: &[char]) -> (r: Vec<char>)
    ensures
        r@ == trim(v@),
{
    let mut a: usize = 0;
    while a < v.len() && is_ws_exec(v[a])
        invariant
            a <= v@.len(),
            forall|j: int| 0 <= j < a ==> is_ws(v@[j]),
        decreases v@.len() - a,
    {
        a = a + 1;
    }
    proof {
        lemma_trim_start_skip(v@, a as int);
    }
    let mut b: usize = v.len();
    while b > a && is_ws_exec(v[b - 1])
        invariant
            a <= b <= v@.len(),
            forall|j: int| b <= j < v@.len() ==> is_ws(v@[j]),
        decreases b - a,
    {
        b = b - 1;
    }
    let ghost t = v@.skip(a as int);
    proof {
        assert(a < b ==> !is_ws(t[0]));
        assert(trim_start(t) == t);
        lemma_trim_end_take(t, (b - a) as int);
        assert(t.take((b - a) as int) == v@.subrange(a as int, b as int));
    }
    slice_chars(v, a, b)
}

pub proof fn lemma_trim_start_by_skip(s: Seq<char>, p: spec_fn(char) -> bool, i: int)
    requires
        0 <= i <= s.len(),
        forall|j: int| 0 <= j < i ==> p(s[j]),
    ensures
        trim_start_by(s, p) == trim_start_by(s.skip(i), p),
    decreases i,
{
    if i > 0 {
        assert(s.skip(1).skip(i - 1) == s.skip(i));
        assert forall|j: int| 0 <= j < i - 1 implies p(s.skip(1)[j]) by {
            assert(s.skip(1)[j] == s[j + 1]);
        }
        assert(p(s[0]));
        lemma_trim_start_by_skip(s.skip(1), p, i - 1);
        assert(trim_start_by(s, p) == trim_start_by(s.skip(1), p));
    } else {
        assert(s.skip(0) =~= s);
    }
}

pub proof fn lemma_trim_end_by_take(s: Seq<char>, p: spec_fn(char) -> bool, i: int)
    requires
        0 <= i <= s.len(),
        forall|j: int| i <= j < s.len() ==> p(s[j]),
    ensures
        trim_end_by(s, p) == trim_end_by(s.take(i), p),
    decreases s.len() - i,
{
    if i < s.len() {
        assert(s.drop_last().take(i) == s.take(i));
        assert forall|j: int| i <= j < s.len() - 1 implies p(s.drop_last()[j]) by {
            assert(s.drop_last()[j] == s[j]);
        }
        assert(p(s.last()));
        lemma_trim_end_by_take(s.drop_last(), p, i);
        assert(trim_end_by(s, p) == trim_end_by(s.drop_last(), p));
    } else {
        assert(s.take(i) =~= s);
    }
}

/// `s` without leading and trailing copies of `c` (`str::trim_matches` with
/// a char).
pub open spec fn trim_char(s: Seq<char>, c: char) -> Seq<char> {
    trim_end_by(trim_start_by(s, is_char(c)), is_char(c))
}

/// The predicate "is the character `c`".
pub open spec fn is_char(c: char) -> spec_fn(char) -> bool {
    |x: char| x == c
}

/// `v` without leading and trailing copies of `c`.
pub fn trim_char_exec(v: &[char], c: char) -> (r: Vec<char>)
    ensures
        r@ == trim_char(v@, c),
{
    let ghost p = is_char(c);
    let mut a: usize = 0;
    while a < v.len() && v[a] == c
        invariant
            a <= v@.len(),
            forall|j: int| 0 <= j < a ==> v@[j] == c,
        decreases v@.len() - a,
    {
        a = a + 1;
    }
    proof {
        lemma_trim_start_by_skip(v@, p, a as int);
    }
    let mut b: usize = v.len();
    while b > a && v[b - 1] == c
        invariant
            a <= b <= v@.len(),
            forall|j: int| b <= j < v@.len() ==> v@[j] == c,
        decreases b - a,
    {
        b = b - 1;
    }
    let ghost t = v@.skip(a as int);
    proof {
        assert(a < v@.len() ==> !p(t[0]));
        assert(trim_start_by(t, p) == t);
        lemma_trim_end_by_take(t, p, (b - a) as int);
        assert(t.take((b - a) as int) == v@.subrange(a as int, b as int));
    }
    slice_chars(v, a, b)
}

/// The predicate "is a quote character" (`'` or `"`).
pub open spec fn is_quote() -> spec_fn(char) -> bool {
    |x: char| x == '\'' || x == '"'
}

/// `s` without leading and trailing quote characters
/// (`str::trim_matches(|c| c == '\'' || c == '"')`).
pub open spec fn trim_quotes(s: Seq<char>) -> Seq<char> {
    trim_end_by(trim_start_by(s, is_quote()), is_quote())
}

/// `v` without leading and trailing quote characters.
pub fn trim_quotes_exec(v: &[char]) -> (r: Vec<char>)
    ensures
        r@ == trim_quotes(v@),
{
    let ghost p = is_quote();
    let mut a: usize = 0;
    while a < v.len() && (v[a] == '\'' || v[a] == '"')
        invariant
            p == is_quote(),
            a <= v@.len(),
            forall|j: int| 0 <= j < a ==> p(v@[j]),
        decreases v@.len() - a,
    {
        a = a + 1;
    }
    proof {
        lemma_trim_start_by_skip(v@, p, a as int);
    }
    let mut b: usize = v.len();
    while b > a && (v[b - 1] == '\'' || v[b - 1] == '"')
        invariant
            p == is_quote(),
            a <= b <= v@.len(),
            forall|j: int| b <= j < v@.len() ==> p(v@[j]),
        decreases b - a,
    {
        b = b - 1;
    }
    let ghost t = v@.skip(a as int);
    proof {
        assert(a < v@.len() ==> !p(t[0]));
        assert(trim_start_by(t, p) == t);
        lemma_trim_end_by_take(t, p, (b - a) as int);
        assert(t.take((b - a) as int) == v@.subrange(a as int, b as int));
    }
    slice_chars(v, a, b)
}

/// `occurs_at` in `s` at `j >= 1` is `occurs_at` in `s.skip(1)` at `j - 1`.
proof fn lemma_occurs_skip1(s: Seq<char>, p: Seq<char>, j: int)
    requires
        s.len() > 0,
        j >= 1,
    ensures
        occurs_at(s, p, j) == occurs_at(s.skip(1), p, j - 1),
{
    if j + p.len() <= s.len() {
        assert(s.subrange(j, j + p.len()) =~= s.skip(1).subrange(j - 1, j - 1 + p.len()));
    }
}

/// `find_seq` finds the first occurrence, and none when there is none.
pub proof fn lemma_find_seq_first(s: Seq<char>, sep: Seq<char>)
    requires
        sep.len() > 0,
    ensures
        find_seq(s, sep) matches Some(k) ==> forall|j: int| 0 <= j < k ==> !occurs_at(s, sep, j),
        find_seq(s, sep) is None ==> !contains_seq(s, sep),
    decreases s.len(),
{
    if s.len() < sep.len() {
    } else if starts_with(s, sep) {
    } else {
        lemma_find_seq_first(s.skip(1), sep);
        assert(!occurs_at(s, sep, 0)) by {
            if occurs_at(s, sep, 0) {
                assert(s.take(sep.len() as int) =~= s.subrange(0, sep.len() as int));
            }
        }
        assert forall|j: int| 1 <= j implies occurs_at(s, sep, j) == occurs_at(s.skip(1), sep, j - 1) by {
            lemma_occurs_skip1(s, sep, j);
        }
        if find_seq(s, sep) is None {
            assert(!contains_seq(s, sep)) by {
                if contains_seq(s, sep) {
                    let j = choose|j: int| occurs_at(s, sep, j);
                    if j >= 1 {
                        assert(occurs_at(s.skip(1), sep, j - 1));
                    }
                }
            }
        }
    }
}

/// No part of `split_seq(s, sep)` contains `sep`.
pub proof fn lemma_split_parts_free(s: Seq<char>, sep: Seq<char>)
    requires
        sep.len() > 0,
    ensures
        forall|q: int|
            0 <= q < split_seq(s, sep).len() ==> !contains_seq(#[trigger] split_seq(s, sep)[q], sep),
    decreases s.len(),
{
    lemma_find_seq_first(s, sep);
    lemma_find_seq_bounds(s, sep);
    match find_seq(s, sep) {
        Some(i) => {
            if 0 <= i && i + sep.len() <= s.len() {
                lemma_split_parts_free(s.skip(i + sep.len()), sep);
                let head = s.take(i);
                assert(!contains_seq(head, sep)) by {
                    if contains_seq(head, sep) {
                        let j = choose|j: int| occurs_at(head, sep, j);
                        assert(head.subrange(j, j + sep.len()) =~= s.subrange(j, j + sep.len()));
                        assert(occurs_at(s, sep, j));
                    }
                }
                let parts = split_seq(s, sep);
                let rest = split_seq(s.skip(i + sep.len()), sep);
                assert forall|q: int| 0 <= q < parts.len() implies !contains_seq(
                    #[trigger] parts[q],
                    sep,
                ) by {
                    if q > 0 {
                        assert(parts[q] == rest[q - 1]);
                    }
                }
            }
        },
        None => {
            assert(split_seq(s, sep) == seq![s]);
            assert(split_seq(s, sep)[0] == s);
        },
    }
}

/// Parts free of `::`, joined with `/`, give text free of `::`.
pub proof fn lemma_join_slash_free(parts: Seq<Seq<char>>)
    requires
        forall|q: int| 0 <= q < parts.len() ==> !contains_seq(#[trigger] parts[q], "::"@),
    ensures
        !contains_seq(join_seq(parts, "/"@), "::"@),
    decreases parts.len(),
{
    reveal_strlit("::");
    reveal_strlit("/");
    if parts.len() == 1 {
    } else if parts.len() > 1 {
        let init = parts.drop_last();
        assert forall|q: int| 0 <= q < init.len() implies !contains_seq(#[trigger] init[q], "::"@) by {
            assert(init[q] == parts[q]);
        }
        lemma_join_slash_free(init);
        let a = join_seq(init, "/"@);
        let b = parts.last();
        let out = a + "/"@ + b;
        assert(!contains_seq(b, "::"@));
        assert(!contains_seq(out, "::"@)) by {
            if contains_seq(out, "::"@) {
                let j = choose|j: int| occurs_at(out, "::"@, j);
                assert(out.subrange(j, j + 2) == "::"@);
                assert(out[j] == ':' && out[j + 1] == ':') by {
                    assert(out.subrange(j, j + 2)[0] == out[j]);
                    assert(out.subrange(j, j + 2)[1] == out[j + 1]);
                }
                assert(out[a.len() as int] == '/');
                if j + 1 < a.len() {
                    assert(a.subrange(j, j + 2) =~= out.subrange(j, j + 2));
                    assert(occurs_at(a, "::"@, j));
                } else if j > a.len() {
                    let jb = j - a.len() - 1;
                    assert(b.subrange(jb, jb + 2) =~= out.subrange(j, j + 2));
                    assert(occurs_at(b, "::"@, jb));
                }
            }
        }
    }
}

proof fn lemma_replace_colons_head(u: Seq<char>)
    requires
        u.len() > 0,
    ensures
        replace_seq(u, "::"@, "/"@).len() > 0,
        replace_seq(u, "::"@, "/"@)[0] == if starts_with(u, "::"@) {
            '/'
        } else {
            u[0]
        },
{
    reveal_strlit("::");
    reveal_strlit("/");
}

/// Replacing every `::` by `/` leaves no `::` behind.
pub proof fn lemma_replace_colons_free(s: Seq<char>)
    ensures
        !contains_seq(replace_seq(s, "::"@, "/"@), "::"@),
    decreases s.len(),
{
    reveal_strlit("::");
    reveal_strlit("/");
    let out = replace_seq(s, "::"@, "/"@);
    if s.len() > 0 {
        if starts_with(s, "::"@) {
            let rest = replace_seq(s.skip(2), "::"@, "/"@);
            lemma_replace_colons_free(s.skip(2));
            assert(out == "/"@ + rest);
            assert(!contains_seq(out, "::"@)) by {
                if contains_seq(out, "::"@) {
                    let j = choose|j: int| occurs_at(out, "::"@, j);
                    assert(out.subrange(j, j + 2)[0] == out[j]);
                    if j == 0 {
                        assert(out[0] == '/');
                    } else {
                        assert(rest.subrange(j - 1, j + 1) =~= out.subrange(j, j + 2));
                        assert(occurs_at(rest, "::"@, j - 1));
                    }
                }
            }
        } else {
            let rest = replace_seq(s.skip(1), "::"@, "/"@);
            lemma_replace_colons_free(s.skip(1));
            assert(out == seq![s[0]] + rest);
            assert(!contains_seq(out, "::"@)) by {
                if contains_seq(out, "::"@) {
                    let j = choose|j: int| occurs_at(out, "::"@, j);
                    assert(out.subrange(j, j + 2)[0] == out[j]);
                    assert(out.subrange(j, j + 2)[1] == out[j + 1]);
                    if j == 0 {
                        assert(s[0] == ':');
                        assert(rest.len() > 0 && rest[0] == ':');
                        if s.skip(1).len() == 0 {
                            assert(rest.len() == 0);
                        }
                        lemma_replace_colons_head(s.skip(1));
                        if starts_with(s.skip(1), "::"@) {
                            assert(rest[0] == '/');
                        } else {
                            assert(s[1] == ':');
                            assert(s.take(2) =~= "::"@);
                        }
                    } else {
                        assert(rest.subrange(j - 1, j + 1) =~= out.subrange(j, j + 2));
                        assert(occurs_at(rest, "::"@, j - 1));
                    }
                }
            }
        }
    }
}

/// Text without `:` is left alone by replacing `::` with `/`.
pub proof fn lemma_replace_colon_free(x: Seq<char>)
    requires
        !x.contains(':'),
    ensures
        replace_seq(x, "::"@, "/"@) == x,
    decreases x.len(),
{
    reveal_strlit("::");
    if x.len() > 0 {
        assert(!x.skip(1).contains(':')) by {
            if x.skip(1).contains(':') {
                let i = choose|i: int| 0 <= i < x.skip(1).len() && x.skip(1)[i] == ':';
                assert(x[i + 1] == ':');
            }
        }
        lemma_replace_colon_free(x.skip(1));
        assert(x[0] != ':');
        assert(!starts_with(x, "::"@)) by {
            if starts_with(x, "::"@) {
                assert(x.take(2)[0] == x[0]);
            }
        }
        assert(x =~= seq![x[0]] + x.skip(1));
    }
}

/// Replacing `::` with `/` in `x::y` for a segment `x` without `:` gives
/// `x/` followed by the replacement in `y`.
pub proof fn lemma_replace_after_segment(x: Seq<char>, y: Seq<char>)
    requires
        !x.contains(':'),
    ensures
        replace_seq(x + "::"@ + y, "::"@, "/"@) == x + "/"@ + replace_seq(y, "::"@, "/"@),
    decreases x.len(),
{
    reveal_strlit("::");
    reveal_strlit("/");
    let s = x + "::"@ + y;
    if x.len() == 0 {
        assert(s =~= "::"@ + y);
        assert(s.take(2) =~= "::"@);
        assert(s.skip(2) =~= y);
        assert(x + "/"@ + replace_seq(y, "::"@, "/"@) =~= "/"@ + replace_seq(y, "::"@, "/"@));
    } else {
        let x1 = x.skip(1);
        assert(!x1.contains(':')) by {
            if x1.contains(':') {
                let i = choose|i: int| 0 <= i < x1.len() && x1[i] == ':';
                assert(x[i + 1] == ':');
            }
        }
        lemma_replace_after_segment(x1, y);
        assert(x[0] != ':');
        assert(s[0] == x[0]);
        assert(!starts_with(s, "::"@)) by {
            if starts_with(s, "::"@) {
                assert(s.take(2)[0] == s[0]);
            }
        }
        assert(s.skip(1) =~= x1 + "::"@ + y);
        assert(x + "/"@ + replace_seq(y, "::"@, "/"@) =~= seq![x[0]] + (x1 + "/"@ + replace_seq(
            y,
            "::"@,
            "/"@,
        )));
    }
}

/// Joining from the front: `a sep rest`.
pub proof fn lemma_join_front(ms: Seq<Seq<char>>, sep: Seq<char>)
    requires
        ms.len() >= 2,
    ensures
        join_seq(ms, sep) == ms[0] + sep + join_seq(ms.skip(1), sep),
    decreases ms.len(),
{
    if ms.len() == 2 {
        assert(ms.skip(1) =~= seq![ms[1]]);
        assert(ms.drop_last() =~= seq![ms[0]]);
        assert(join_seq(ms.drop_last(), sep) == ms[0]);
        assert(join_seq(ms.skip(1), sep) == ms[1]);
        assert(join_seq(ms, sep) == join_seq(ms.drop_last(), sep) + sep + ms.last());
        assert(join_seq(ms, sep) =~= ms[0] + sep + join_seq(ms.skip(1), sep));
    } else {
        lemma_join_front(ms.drop_last(), sep);
        let rest = ms.skip(1);
        assert(ms.drop_last().skip(1) =~= rest.drop_last());
        assert(rest.last() == ms.last());
        assert(ms.drop_last()[0] == ms[0]);
        assert(join_seq(rest, sep) == join_seq(rest.drop_last(), sep) + sep + rest.last());
        assert(join_seq(ms, sep) == join_seq(ms.drop_last(), sep) + sep + ms.last());
        assert(join_seq(ms, sep) =~= ms[0] + sep + join_seq(ms.skip(1), sep));
    }
}

/// Module segments without `:` joined with `::`, after `::` becomes `/`,
/// are the segments joined with `/`.
pub proof fn lemma_replace_join(ms: Seq<Seq<char>>)
    requires
        ms.len() >= 1,
        forall|q: int| 0 <= q < ms.len() ==> !(#[trigger] ms[q]).contains(':'),
    ensures
        replace_seq(join_seq(ms, "::"@), "::"@, "/"@) == join_seq(ms, "/"@),
    decreases ms.len(),
{
    if ms.len() == 1 {
        lemma_replace_colon_free(ms[0]);
    } else {
        lemma_join_front(ms, "::"@);
        lemma_join_front(ms, "/"@);
        let rest = ms.skip(1);
        assert forall|q: int| 0 <= q < rest.len() implies !(#[trigger] rest[q]).contains(':') by {
            assert(rest[q] == ms[q + 1]);
        }
        lemma_replace_join(rest);
        lemma_replace_after_segment(ms[0], join_seq(rest, "::"@));
    }
}

/// A character that no segment and no separator holds is not in the join.
pub proof fn lemma_join_lacks(ms: Seq<Seq<char>>, sep: Seq<char>, c: char)
    requires
        !sep.contains(c),
        forall|q: int| 0 <= q < ms.len() ==> !(#[trigger] ms[q]).contains(c),
    ensures
        !join_seq(ms, sep).contains(c),
    decreases ms.len(),
{
    if ms.len() == 1 {
        assert(!ms[0].contains(c));
    } else if ms.len() > 1 {
        let init = ms.drop_last();
        assert forall|q: int| 0 <= q < init.len() implies !(#[trigger] init[q]).contains(c) by {
            assert(init[q] == ms[q]);
        }
        lemma_join_lacks(init, sep, c);
        let a = join_seq(init, sep);
        let b = ms.last();
        assert(!b.contains(c));
        let out = a + sep + b;
        assert(!out.contains(c)) by {
            if out.contains(c) {
                let i = choose|i: int| 0 <= i < out.len() && out[i] == c;
                if i < a.len() {
                    assert(a[i] == c);
                } else if i < a.len() + sep.len() {
                    assert(sep[i - a.len()] == c);
                } else {
                    assert(b[i - a.len() - sep.len()] == c);
                }
            }
        }
    }
}

/// The join of at least one segment, each non-empty, is non-empty.
pub proof fn lemma_join_nonempty(ms: Seq<Seq<char>>, sep: Seq<char>)
    requires
        ms.len() >= 1,
        forall|q: int| 0 <= q < ms.len() ==> (#[trigger] ms[q]).len() > 0,
    ensures
        join_seq(ms, sep).len() > 0,
{
    if ms.len() > 1 {
        assert(ms.last().len() > 0);
    } else {
        assert(ms[0].len() > 0);
    }
}

/// Splitting `x::y` at `::`, for a segment `x` without `:`, gives `x` and
/// then the pieces of `y`.
pub proof fn lemma_split_after_segment(x: Seq<char>, y: Seq<char>)
    requires
        !x.contains(':'),
    ensures
        split_seq(x + "::"@ + y, "::"@) == seq![x] + split_seq(y, "::"@),
{
    reveal_strlit("::");
    let s = x + "::"@ + y;
    let k = x.len() as int;
    lemma_find_seq_first(s, "::"@);
    lemma_find_seq_bounds(s, "::"@);
    assert(s.subrange(k, k + 2) =~= "::"@);
    assert(occurs_at(s, "::"@, k));
    assert forall|j: int| 0 <= j < k implies !occurs_at(s, "::"@, j) by {
        if occurs_at(s, "::"@, j) {
            assert(s.subrange(j, j + 2)[0] == s[j]);
            assert(s[j] == ':');
            assert(x[j] == s[j]);
            assert(x.contains(':'));
        }
    }
    match find_seq(s, "::"@) {
        Some(f) => {
            assert(occurs_at(s, "::"@, f)) by {
                assert(s.skip(f).take(2) =~= s.subrange(f, f + 2));
            }
            if f > k {
                assert(!occurs_at(s, "::"@, k));
            }
            assert(f == k);
        },
        None => {
            assert(contains_seq(s, "::"@));
        },
    }
    assert(s.take(k) =~= x);
    assert(s.skip(k + 2) =~= y);
}

/// Segments without `:` joined with `::` split back into the segments.
pub proof fn lemma_split_join_colons(ms: Seq<Seq<char>>)
    requires
        ms.len() >= 1,
        forall|q: int| 0 <= q < ms.len() ==> !(#[trigger] ms[q]).contains(':'),
    ensures
        split_seq(join_seq(ms, "::"@), "::"@) == ms,
    decreases ms.len(),
{
    reveal_strlit("::");
    if ms.len() == 1 {
        let x = ms[0];
        lemma_find_seq_first(x, "::"@);
        match find_seq(x, "::"@) {
            Some(f) => {
                lemma_find_seq_bounds(x, "::"@);
                assert(x.skip(f).take(2)[0] == x[f]);
                assert(x.contains(':'));
            },
            None => {},
        }
        assert(split_seq(x, "::"@) == seq![x]);
        assert(ms =~= seq![x]);
    } else {
        lemma_join_front(ms, "::"@);
        let rest = ms.skip(1);
        assert forall|q: int| 0 <= q < rest.len() implies !(#[trigger] rest[q]).contains(':') by {
            assert(rest[q] == ms[q + 1]);
        }
        lemma_split_join_colons(rest);
        lemma_split_after_segment(ms[0], join_seq(rest, "::"@));
        assert(seq![ms[0]] + rest =~= ms);
    }
}

/// The lines of `v`, as `str::lines` yields them.
pub fn lines_exec(v: &[char]) -> (r: Vec<Vec<char>>)
    ensures
        nested_view(r@) == lines(v@),
{
    let parts = split_char_exec(v, '\n');
    let ghost p = split_char(v@, '\n');
    proof {
        lemma_split_nonempty(v@, '\n');
    }
    let mut out: Vec<Vec<char>> = Vec::new();
    if v.len() == 0 {
        assert(nested_view(out@) =~= lines(v@));
        return out;
    }
    let n = if v[v.len() - 1] == '\n' {
        parts.len() - 1
    } else {
        parts.len()
    };
    let mut i: usize = 0;
    while i < n
        invariant
            nested_view(parts@) == p,
            p == split_char(v@, '\n'),
            v@.len() > 0,
            n == (if v@.last() == '\n' { p.len() - 1 } else { p.len() as int }),
            n <= p.len(),
            i <= n,
            nested_view(out@) == lines(v@).take(i as int),
        decreases n - i,
    {
        let piece = &parts[i];
        assert(piece@ == p[i as int]);
        let line = if i + 1 < parts.len() && piece.len() > 0 && piece[piece.len() - 1] == '\r' {
            let l = slice_chars(piece.as_slice(), 0, piece.len() - 1);
            assert(l@ == piece@.drop_last());
            l
        } else {
            let l = slice_chars(piece.as_slice(), 0, piece.len());
            assert(l@ == piece@);
            l
        };
        assert(line@ == lines(v@)[i as int]);
        let ghost old_out = nested_view(out@);
        out.push(line);
        assert(nested_view(out@) =~= old_out.push(line@));
        i = i + 1;
        assert(nested_view(out@) =~= lines(v@).take(i as int));
    }
    assert(lines(v@).take(n as int) =~= lines(v@));
    out
}

/// `v[a..b]` spells exactly `lit`.
pub fn eq_lit_range(v: &[char], a: usize, b: usize, lit: &str) -> (r: bool)
    requires
        a <= b <= v@.len(),
    ensures
        r == (v@.subrange(a as int, b as int) == lit@),
{
    eq_lit(vstd::slice::slice_subrange(v, a, b), lit)
}

/// Where `v[a..b]` continues once the prefix `lit` is removed.
pub fn strip_prefix_range(v: &[char], a: usize, b: usize, lit: &str) -> (r: Option<usize>)
    requires
        a <= b <= v@.len(),
    ensures
        match strip_prefix(v@.subrange(a as int, b as int), lit@) {
            Some(rest) => r matches Some(k) && a <= k <= b && rest == v@.subrange(
                k as int,
                b as int,
            ),
            None => r is None,
        },
{
    let s = vstd::slice::slice_subrange(v, a, b);
    if starts_with_lit(s, lit) {
        let n = lit.unicode_len();
        assert(s@.skip(n as int) =~= v@.subrange(a + n, b as int));
        Some(a + n)
    } else {
        None
    }
}

/// Where `v[a..b]` ends once the suffix `lit` is removed.
pub fn strip_suffix_range(v: &[char], a: usize, b: usize, lit: &str) -> (r: Option<usize>)
    requires
        a <= b <= v@.len(),
    ensures
        match strip_suffix(v@.subrange(a as int, b as int), lit@) {
            Some(rest) => r matches Some(k) && a <= k <= b && rest == v@.subrange(
                a as int,
                k as int,
            ),
            None => r is None,
        },
{
    let s = vstd::slice::slice_subrange(v, a, b);
    if ends_with_lit(s, lit) {
        let n = lit.unicode_len();
        assert(s@.take(s@.len() - n) =~= v@.subrange(a as int, b - n));
        Some(b - n)
    } else {
        None
    }
}

/// `s` with every backslash turned into `/` (`str::replace` of a backslash by `/`).
pub open spec fn backslash_to_slash(s: Seq<char>) -> Seq<char> {
    s.map_values(|c: char| if c == '\\' { '/' } else { c })
}

/// `v` with every backslash turned into `/`.
pub fn backslash_to_slash_exec(v: &[char]) -> (r: Vec<char>)
    ensures
        r@ == backslash_to_slash(v@),
{
    let mut r: Vec<char> = Vec::new();
    let mut i: usize = 0;
    while i < v.len()
        invariant
            i <= v@.len(),
            r@ == backslash_to_slash(v@.take(i as int)),
        decreases v@.len() - i,
    {
        let c = v[i];
        r.push(if c == '\\' { '/' } else { c });
        i = i + 1;
        assert(r@ =~= backslash_to_slash(v@.take(i as int)));
    }
    assert(v@.take(v@.len() as int) == v@);
    r
}

} // verus!

verus! {

/// What `char::is_uppercase` answers for `c` (the Unicode `Uppercase`
/// property, a table of thousands of code points).
pub uninterp spec fn char_is_uppercase(c: char) -> bool;

/// `char::is_uppercase`: whether `c` has the Unicode `Uppercase` property.
/// The contract only names that answer; it says nothing of which
/// characters have the property.
#[verifier::external_body]
pub(crate) fn is_uppercase(c: char) -> (b: bool)
    ensures
        b == char_is_uppercase(c),
{
    c.is_uppercase()
}

/// `v` with every `from` replaced by `to`, left to right.
pub fn replace_chars(v: &[char], from: &[char], to: &[char]) -> (r: Vec<char>)
    ensures
        r@ == replace_seq(v@, from@, to@),
{
    let mut out: Vec<char> = Vec::new();
    let mut i: usize = 0;
    assert(v@.skip(0) =~= v@);
    assert(out@ + replace_seq(v@, from@, to@) =~= replace_seq(v@, from@, to@));
    while i < v.len()
        invariant
            i <= v@.len(),
            out@ + replace_seq(v@.skip(i as int), from@, to@) == replace_seq(v@, from@, to@),
        decreases v@.len() - i,
    {
        let ghost rest = v@.skip(i as int);
        let rest_slice = vstd::slice::slice_subrange(v, i, v.len());
        assert(rest_slice@ == rest);
        if from.len() > 0 && starts_with_chars(rest_slice, from) {
            let ghost old_out = out@;
            let mut j: usize = 0;
            while j < to.len()
                invariant
                    j <= to@.len(),
                    out@ == old_out + to@.take(j as int),
                decreases to@.len() - j,
            {
                out.push(to[j]);
                j = j + 1;
                assert(out@ =~= old_out + to@.take(j as int));
            }
            assert(to@.take(to@.len() as int) == to@);
            assert(rest.skip(from@.len() as int) == v@.skip(i + from@.len()));
            assert(old_out + replace_seq(rest, from@, to@) == replace_seq(v@, from@, to@));
            assert(replace_seq(rest, from@, to@) == to@ + replace_seq(rest.skip(from@.len() as int), from@, to@));
            assert(out@ + replace_seq(v@.skip(i + from@.len()), from@, to@) =~= old_out + (to@ + replace_seq(rest.skip(from@.len() as int), from@, to@)));
            i = i + from.len();
        } else {
            let ghost old_out = out@;
            out.push(v[i]);
            assert(rest.skip(1) == v@.skip(i + 1));
            assert(replace_seq(rest, from@, to@) == seq![rest[0]] + replace_seq(rest.skip(1), from@, to@));
            assert(out@ + replace_seq(v@.skip(i + 1), from@, to@) =~= old_out + (seq![rest[0]] + replace_seq(rest.skip(1), from@, to@)));
            i = i + 1;
        }
    }
    assert(v@.skip(v@.len() as int) =~= Seq::<char>::empty());
    assert(out@ + replace_seq(Seq::<char>::empty(), from@, to@) =~= out@);
    out
}

/// The position of the leftmost occurrence of `sep` in `s` (`str::find`
/// with a string pattern).
pub open spec fn find_seq(s: Seq<char>, sep: Seq<char>) -> Option<int>
    decreases s.len(),
{
    if s.len() < sep.len() {
        None
    } else if starts_with(s, sep) {
        Some(0)
    } else if s.len() == 0 {
        None
    } else {
        match find_seq(s.skip(1), sep) {
            Some(k) => Some(k + 1),
            None => None,
        }
    }
}

/// The pieces of `s` between leftmost non-overlapping occurrences of the
/// non-empty `sep` (`str::split` with a string pattern).
pub open spec fn split_seq(s: Seq<char>, sep: Seq<char>) -> Seq<Seq<char>>
    decreases s.len(),
{
    if sep.len() == 0 {
        seq![s]
    } else {
        match find_seq(s, sep) {
            Some(i) => if 0 <= i && i + sep.len() <= s.len() {
                seq![s.take(i)] + split_seq(s.skip(i + sep.len()), sep)
            } else {
                seq![s]
            },
            None => seq![s],
        }
    }
}

/// `parts` joined with `sep` between consecutive parts (`[T]::join`).
pub open spec fn join_seq(parts: Seq<Seq<char>>, sep: Seq<char>) -> Seq<char>
    decreases parts.len(),
{
    if parts.len() == 0 {
        Seq::<char>::empty()
    } else if parts.len() == 1 {
        parts[0]
    } else {
        join_seq(parts.drop_last(), sep) + sep + parts.last()
    }
}

proof fn lemma_find_seq_scan(s: Seq<char>, sep: Seq<char>, i: int)
    requires
        0 <= i <= s.len(),
        forall|j: int| 0 <= j < i ==> !starts_with(#[trigger] s.skip(j), sep),
    ensures
        find_seq(s, sep) == (match find_seq(s.skip(i), sep) {
            Some(k) => Some(k + i),
            None => None,
        }),
    decreases i,
{
    if i == 0 {
        assert(s.skip(0) =~= s);
        match find_seq(s, sep) {
            Some(k) => {},
            None => {},
        }
    } else {
        assert(s.skip(0) =~= s);
        assert(!starts_with(s, sep));
        assert forall|j: int| 0 <= j < i - 1 implies !starts_with(#[trigger] s.skip(1).skip(j), sep) by {
            assert(s.skip(1).skip(j) == s.skip(j + 1));
        }
        lemma_find_seq_scan(s.skip(1), sep, i - 1);
        assert(s.skip(1).skip(i - 1) == s.skip(i));
    }
}

proof fn lemma_find_seq_bounds(s: Seq<char>, sep: Seq<char>)
    ensures
        find_seq(s, sep) matches Some(k) ==> 0 <= k && k + sep.len() <= s.len() && starts_with(s.skip(k), sep),
    decreases s.len(),
{
    if s.len() >= sep.len() && !starts_with(s, sep) && s.len() > 0 {
        lemma_find_seq_bounds(s.skip(1), sep);
        if let Some(k) = find_seq(s.skip(1), sep) {
            assert(s.skip(1).skip(k) == s.skip(k + 1));
        }
    }
    if starts_with(s, sep) && s.len() >= sep.len() {
        assert(s.skip(0) =~= s);
    }
}

/// The leftmost occurrence of `sep` in `v` at or after `from`.
pub fn find_seq_from(v: &[char], sep: &[char], from: usize) -> (r: Option<usize>)
    requires
        from <= v@.len(),
        sep@.len() > 0,
    ensures
        match find_seq(v@.skip(from as int), sep@) {
            Some(k) => r == Some((k + from) as usize) && 0 <= k && from + k + sep@.len() <= v@.len(),
            None => r is None,
        },
{
    let mut i = from;
    while i < v.len()
        invariant
            from <= i <= v@.len(),
            forall|j: int| 0 <= j < i - from ==> !starts_with(#[trigger] v@.skip(from as int).skip(j), sep@),
        decreases v@.len() - i,
    {
        let rest = vstd::slice::slice_subrange(v, i, v.len());
        assert(rest@ == v@.skip(from as int).skip(i - from));
        if starts_with_chars(rest, sep) {
            proof {
                lemma_find_seq_scan(v@.skip(from as int), sep@, i - from);
                assert(find_seq(rest@, sep@) == Some(0int));
                lemma_find_seq_bounds(v@.skip(from as int), sep@);
            }
            return Some(i);
        }
        i = i + 1;
    }
    proof {
        lemma_find_seq_bounds(v@.skip(from as int), sep@);
        lemma_find_seq_scan(v@.skip(from as int), sep@, v@.len() - from);
        assert(v@.skip(from as int).skip(v@.len() - from).len() == 0);
    }
    None
}

/// The pieces of `v` between occurrences of the non-empty `sep`.
pub fn split_seq_exec(v: &[char], sep: &[char]) -> (r: Vec<Vec<char>>)
    requires
        sep@.len() > 0,
    ensures
        nested_view(r@) == split_seq(v@, sep@),
        r@.len() >= 1,
{
    let mut out: Vec<Vec<char>> = Vec::new();
    let mut i: usize = 0;
    assert(v@.skip(0) =~= v@);
    while i <= v.len()
        invariant
            i <= v@.len(),
            sep@.len() > 0,
            nested_view(out@) + split_seq(v@.skip(i as int), sep@) == split_seq(v@, sep@),
        decreases v@.len() + 1 - i,
    {
        let ghost rest = v@.skip(i as int);
        match find_seq_from(v, sep, i) {
            Some(k) => {
                let piece = slice_chars(v, i, k);
                assert(piece@ =~= rest.take(k - i));
                assert(rest.skip(k - i + sep@.len()) == v@.skip(k + sep@.len()));
                let ghost old_out = nested_view(out@);
                out.push(piece);
                assert(nested_view(out@) =~= old_out.push(piece@));
                assert(nested_view(out@) + split_seq(v@.skip(k + sep@.len()), sep@) =~= old_out + split_seq(rest, sep@));
                i = k + sep.len();
            },
            None => {
                let piece = slice_chars(v, i, v.len());
                assert(piece@ == rest);
                let ghost old_out = nested_view(out@);
                out.push(piece);
                assert(nested_view(out@) =~= old_out.push(piece@));
                assert(nested_view(out@) =~= old_out + split_seq(rest, sep@));
                return out;
            },
        }
    }
    out
}

/// `parts` joined with `sep`.
pub fn join_exec(parts: &[Vec<char>], sep: &[char]) -> (r: Vec<char>)
    ensures
        r@ == join_seq(nested_view(parts@), sep@),
{
    let mut out: Vec<char> = Vec::new();
    let mut i: usize = 0;
    while i < parts.len()
        invariant
            i <= parts@.len(),
            out@ == join_seq(nested_view(parts@).take(i as int), sep@),
        decreases parts@.len() - i,
    {
        let ghost pv = nested_view(parts@);
        assert(pv.take((i + 1) as int).drop_last() == pv.take(i as int));
        if i > 0 {
            out = concat(out.as_slice(), sep);
        }
        out = concat(out.as_slice(), parts[i].as_slice());
        i = i + 1;
        if i == 1 {
            assert(out@ =~= pv.take(1)[0]);
        }
    }
    assert(nested_view(parts@).take(parts@.len() as int) =~= nested_view(parts@));
    out
}

/// A copy of a list of strings.
pub fn clone_strings(v: &Vec<String>) -> (r: Vec<String>)
    ensures
        strings_view(r@) == strings_view(v@),
{
    let mut out: Vec<String> = Vec::new();
    let mut i: usize = 0;
    while i < v.len()
        invariant
            i <= v@.len(),
            strings_view(out@) == strings_view(v@).take(i as int),
        decreases v@.len() - i,
    {
        let ghost before = strings_view(out@);
        let c = v[i].clone();
        assert(c@ == v@[i as int]@);
        out.push(c);
        assert(strings_view(out@) =~= before.push(c@));
        i = i + 1;
        assert(strings_view(out@) =~= strings_view(v@).take(i as int));
    }
    assert(strings_view(v@).take(v@.len() as int) =~= strings_view(v@));
    out
}

/// `a` comes strictly before `b` in lexicographic character order, which
/// is the order of `String`'s `Ord` (UTF-8 keeps code-point order).
pub open spec fn lex_lt(a: Seq<char>, b: Seq<char>) -> bool
    decreases a.len(),
{
    if a.len() == 0 {
        b.len() > 0
    } else if b.len() == 0 {
        false
    } else if a[0] != b[0] {
        a[0] < b[0]
    } else {
        lex_lt(a.skip(1), b.skip(1))
    }
}

/// Lexicographic order is irreflexive and total on distinct sequences.
pub proof fn lemma_lex_total(a: Seq<char>, b: Seq<char>)
    ensures
        !lex_lt(a, a),
        a != b ==> (lex_lt(a, b) || lex_lt(b, a)),
        !(lex_lt(a, b) && lex_lt(b, a)),
    decreases a.len(),
{
    if a.len() > 0 {
        lemma_lex_total(a.skip(1), a.skip(1));
        if b.len() > 0 {
            lemma_lex_total(a.skip(1), b.skip(1));
            if a[0] == b[0] && a != b {
                assert(a.skip(1) != b.skip(1)) by {
                    if a.skip(1) == b.skip(1) {
                        assert(a =~= seq![a[0]] + a.skip(1));
                        assert(b =~= seq![b[0]] + b.skip(1));
                    }
                }
            }
        }
    } else {
        if b.len() == 0 {
            assert(a =~= b);
        }
    }
}

/// Lexicographic order is transitive.
pub proof fn lemma_lex_trans(a: Seq<char>, b: Seq<char>, c: Seq<char>)
    requires
        lex_lt(a, b),
        lex_lt(b, c),
    ensures
        lex_lt(a, c),
    decreases a.len(),
{
    if a.len() > 0 && b.len() > 0 && c.len() > 0 {
        if a[0] == b[0] && b[0] == c[0] {
            lemma_lex_trans(a.skip(1), b.skip(1), c.skip(1));
        }
    }
}

/// The sequence is strictly increasing in lexicographic order.
pub open spec fn strictly_sorted(s: Seq<Seq<char>>) -> bool {
    forall|i: int, j: int| 0 <= i < j < s.len() ==> lex_lt(#[trigger] s[i], #[trigger] s[j])
}

/// `r` with `x` put in its place in lexicographic order.
pub open spec fn sorted_insert(r: Seq<Seq<char>>, x: Seq<char>) -> Seq<Seq<char>>
    decreases r.len(),
{
    if r.len() == 0 {
        seq![x]
    } else if lex_lt(x, r[0]) {
        seq![x] + r
    } else {
        seq![r[0]] + sorted_insert(r.skip(1), x)
    }
}

proof fn lemma_sorted_insert(r: Seq<Seq<char>>, x: Seq<char>)
    requires
        strictly_sorted(r),
        !r.contains(x),
    ensures
        strictly_sorted(sorted_insert(r, x)),
        sorted_insert(r, x).to_set() == r.to_set().insert(x),
    decreases r.len(),
{
    let out = sorted_insert(r, x);
    if r.len() == 0 {
        assert(out.to_set() =~= r.to_set().insert(x)) by {
            assert(out =~= seq![x]);
            assert(out[0] == x);
        }
    } else if lex_lt(x, r[0]) {
        assert forall|i: int, j: int| 0 <= i < j < out.len() implies lex_lt(
            #[trigger] out[i],
            #[trigger] out[j],
        ) by {
            if i == 0 {
                assert(out[j] == r[j - 1]);
                if j > 1 {
                    assert(lex_lt(r[0], r[j - 1]));
                    lemma_lex_trans(x, r[0], r[j - 1]);
                }
            } else {
                assert(out[i] == r[i - 1] && out[j] == r[j - 1]);
            }
        }
        assert forall|y: Seq<char>| out.to_set().contains(y) <==> r.to_set().insert(x).contains(y) by {
            if out.contains(y) {
                let i = choose|i: int| 0 <= i < out.len() && out[i] == y;
                if i > 0 {
                    assert(r[i - 1] == y);
                }
            }
            if r.contains(y) {
                let i = choose|i: int| 0 <= i < r.len() && r[i] == y;
                assert(out[i + 1] == y);
            }
            if y == x {
                assert(out[0] == y);
            }
        }
        assert(out.to_set() =~= r.to_set().insert(x));
    } else {
        let tail = r.skip(1);
        assert(r[0] != x) by {
            if r[0] == x {
                assert(r.contains(x));
            }
        }
        lemma_lex_total(x, r[0]);
        assert(lex_lt(r[0], x));
        assert forall|i: int, j: int| 0 <= i < j < tail.len() implies lex_lt(
            #[trigger] tail[i],
            #[trigger] tail[j],
        ) by {
            assert(tail[i] == r[i + 1] && tail[j] == r[j + 1]);
        }
        assert(!tail.contains(x)) by {
            if tail.contains(x) {
                let i = choose|i: int| 0 <= i < tail.len() && tail[i] == x;
                assert(r[i + 1] == x);
            }
        }
        lemma_sorted_insert(tail, x);
        let rest = sorted_insert(tail, x);
        assert forall|k: int| 0 <= k < rest.len() implies lex_lt(r[0], #[trigger] rest[k]) by {
            assert(rest.to_set().contains(rest[k]));
            if rest[k] != x {
                assert(tail.to_set().contains(rest[k]));
                let i = choose|i: int| 0 <= i < tail.len() && tail[i] == rest[k];
                assert(r[i + 1] == rest[k]);
            }
        }
        assert forall|i: int, j: int| 0 <= i < j < out.len() implies lex_lt(
            #[trigger] out[i],
            #[trigger] out[j],
        ) by {
            assert(out[j] == rest[j - 1]);
            if i == 0 {
                assert(out[0] == r[0]);
            } else {
                assert(out[i] == rest[i - 1]);
            }
        }
        assert forall|y: Seq<char>| out.to_set().contains(y) <==> r.to_set().insert(x).contains(y) by {
            if out.contains(y) {
                let i = choose|i: int| 0 <= i < out.len() && out[i] == y;
                if i > 0 {
                    assert(rest[i - 1] == y);
                    assert(rest.to_set().contains(y));
                    if y != x {
                        let q = choose|q: int| 0 <= q < tail.len() && tail[q] == y;
                        assert(r[q + 1] == y);
                    }
                } else {
                    assert(r[0] == y);
                }
            }
            if r.contains(y) {
                let i = choose|i: int| 0 <= i < r.len() && r[i] == y;
                if i == 0 {
                    assert(out[0] == y);
                } else {
                    assert(tail[i - 1] == y);
                    assert(rest.to_set().contains(y));
                    let q = choose|q: int| 0 <= q < rest.len() && rest[q] == y;
                    assert(out[q + 1] == y);
                }
            }
            if y == x {
                assert(rest.to_set().contains(x));
                let q = choose|q: int| 0 <= q < rest.len() && rest[q] == x;
                assert(out[q + 1] == x);
            }
        }
        assert(out.to_set() =~= r.to_set().insert(x));
    }
}

/// Every finite list of names has a strictly sorted arrangement of its
/// distinct elements, so [`sorted_elems`] of its set is that arrangement.
pub proof fn lemma_sorted_elems(s: Seq<Seq<char>>)
    ensures
        strictly_sorted(sorted_elems(s.to_set())),
        sorted_elems(s.to_set()).to_set() == s.to_set(),
    decreases s.len(),
{
    if s.len() == 0 {
        let e = Seq::<Seq<char>>::empty();
        assert(e.to_set() =~= s.to_set());
        assert(strictly_sorted(e));
    } else {
        let init = s.drop_last();
        let x = s.last();
        lemma_sorted_elems(init);
        let r0 = sorted_elems(init.to_set());
        assert(s =~= init.push(x));
        assert(s.to_set() =~= init.to_set().insert(x)) by {
            assert forall|y: Seq<char>| s.contains(y) <==> init.to_set().insert(x).contains(y) by {
                if s.contains(y) {
                    let i = choose|i: int| 0 <= i < s.len() && s[i] == y;
                    if i < init.len() {
                        assert(init[i] == y);
                    }
                }
                if init.contains(y) {
                    let i = choose|i: int| 0 <= i < init.len() && init[i] == y;
                    assert(s[i] == y);
                }
                if y == x {
                    assert(s[s.len() - 1] == y);
                }
            }
        }
        if r0.contains(x) {
            assert(r0.to_set().contains(x));
            assert(init.to_set().insert(x) =~= init.to_set());
            assert(strictly_sorted(r0) && r0.to_set() == s.to_set());
        } else {
            lemma_sorted_insert(r0, x);
            let r = sorted_insert(r0, x);
            assert(strictly_sorted(r) && r.to_set() == s.to_set());
        }
    }
}

fn lex_lt_exec(a: &[char], b: &[char]) -> (r: bool)
    ensures
        r == lex_lt(a@, b@),
{
    let mut i: usize = 0;
    assert(a@.skip(0) =~= a@);
    assert(b@.skip(0) =~= b@);
    while i < a.len() && i < b.len() && a[i] == b[i]
        invariant
            i <= a@.len(),
            i <= b@.len(),
            lex_lt(a@, b@) == lex_lt(a@.skip(i as int), b@.skip(i as int)),
        decreases a@.len() - i,
    {
        assert(a@.skip(i as int).skip(1) == a@.skip(i + 1));
        assert(b@.skip(i as int).skip(1) == b@.skip(i + 1));
        i = i + 1;
    }
    if i == a.len() {
        i < b.len()
    } else if i == b.len() {
        false
    } else {
        a[i] < b[i]
    }
}

/// The elements of a finite set of strings in increasing order.
pub open spec fn sorted_elems(s: Set<Seq<char>>) -> Seq<Seq<char>> {
    choose|r: Seq<Seq<char>>| strictly_sorted(r) && r.to_set() == s
}

/// Two strictly increasing sequences with the same elements are equal.
pub proof fn lemma_sorted_unique(a: Seq<Seq<char>>, b: Seq<Seq<char>>)
    requires
        strictly_sorted(a),
        strictly_sorted(b),
        a.to_set() == b.to_set(),
    ensures
        a == b,
    decreases a.len(),
{
    if a.len() == 0 || b.len() == 0 {
        if a.len() > 0 {
            assert(a.to_set().contains(a[0]));
        }
        if b.len() > 0 {
            assert(b.to_set().contains(b[0]));
        }
        assert(a =~= b);
    } else {
        assert(a.to_set().contains(a[0]));
        assert(b.to_set().contains(b[0]));
        let j = choose|j: int| 0 <= j < b.len() && b[j] == a[0];
        let i = choose|i: int| 0 <= i < a.len() && a[i] == b[0];
        if a[0] != b[0] {
            assert(i > 0 && j > 0);
            assert(lex_lt(a[0], a[i]));
            assert(lex_lt(b[0], b[j]));
            lemma_lex_total(a[0], b[0]);
            assert(false);
        }
        let a1 = a.skip(1);
        let b1 = b.skip(1);
        assert forall|x: Seq<char>| a1.to_set().contains(x) <==> b1.to_set().contains(x) by {
            if a1.contains(x) {
                let k = choose|k: int| 0 <= k < a1.len() && a1[k] == x;
                assert(a[k + 1] == x);
                assert(lex_lt(a[0], x));
                lemma_lex_total(x, x);
                assert(a.to_set().contains(x));
                assert(b.contains(x));
                let m = choose|m: int| 0 <= m < b.len() && b[m] == x;
                assert(m != 0);
                assert(b1[m - 1] == x);
            }
            if b1.contains(x) {
                let k = choose|k: int| 0 <= k < b1.len() && b1[k] == x;
                assert(b[k + 1] == x);
                assert(lex_lt(b[0], x));
                lemma_lex_total(x, x);
                assert(b.to_set().contains(x));
                assert(a.contains(x));
                let m = choose|m: int| 0 <= m < a.len() && a[m] == x;
                assert(m != 0);
                assert(a1[m - 1] == x);
            }
        }
        assert(a1.to_set() =~= b1.to_set());
        assert(strictly_sorted(a1)) by {
            assert forall|p: int, q: int| 0 <= p < q < a1.len() implies lex_lt(
                #[trigger] a1[p],
                #[trigger] a1[q],
            ) by {
                assert(a1[p] == a[p + 1] && a1[q] == a[q + 1]);
            }
        }
        assert(strictly_sorted(b1)) by {
            assert forall|p: int, q: int| 0 <= p < q < b1.len() implies lex_lt(
                #[trigger] b1[p],
                #[trigger] b1[q],
            ) by {
                assert(b1[p] == b[p + 1] && b1[q] == b[q + 1]);
            }
        }
        lemma_sorted_unique(a1, b1);
        assert(a =~= seq![a[0]] + a1);
        assert(b =~= seq![b[0]] + b1);
    }
}

/// `items` sorted and without duplicates (`sort` then `dedup`).
pub fn sort_dedup(items: &Vec<String>) -> (r: Vec<String>)
    ensures
        strictly_sorted(strings_view(r@)),
        strings_view(r@).to_set() == strings_view(items@).to_set(),
        strings_view(r@) == sorted_elems(strings_view(items@).to_set()),
{
    let mut out: Vec<String> = Vec::new();
    let mut i: usize = 0;
    while i < items.len()
        invariant
            i <= items@.len(),
            strictly_sorted(strings_view(out@)),
            strings_view(out@).to_set() == strings_view(items@).take(i as int).to_set(),
        decreases items@.len() - i,
    {
        let ghost before = strings_view(out@);
        let x = chars_of(items[i].as_str());
        let mut k: usize = 0;
        let mut dup = false;
        while k < out.len()
            invariant_except_break
                before == strings_view(out@),
                strictly_sorted(before),
                k <= out@.len(),
                !dup,
                forall|j: int| 0 <= j < k ==> lex_lt(#[trigger] before[j], x@),
            ensures
                before == strings_view(out@),
                k <= out@.len(),
                forall|j: int| 0 <= j < k ==> lex_lt(#[trigger] before[j], x@),
                k < out@.len() ==> !lex_lt(before[k as int], x@),
                dup == (k < out@.len() && before[k as int] == x@),
            decreases out@.len() - k,
        {
            let y = chars_of(out[k].as_str());
            assert(y@ == before[k as int]);
            if lex_lt_exec(y.as_slice(), x.as_slice()) {
                k = k + 1;
            } else {
                if eq_chars(y.as_slice(), x.as_slice()) {
                    dup = true;
                }
                break;
            }
        }
        let ghost xv = x@;
        if dup {
            assert(before.to_set() =~= before.to_set().insert(xv)) by {
                assert(before[k as int] == xv);
                assert(before.contains(xv));
            }
        } else {
            proof {
                if k < before.len() {
                    lemma_lex_total(before[k as int], xv);
                    assert(lex_lt(xv, before[k as int]));
                    assert forall|j: int| k <= j < before.len() implies lex_lt(xv, #[trigger] before[j]) by {
                        if j > k {
                            lemma_lex_trans(xv, before[k as int], before[j]);
                        }
                    }
                }
            }
            out.insert(k, String::from_str(items[i].as_str()));
            let ghost after = strings_view(out@);
            assert(after =~= before.insert(k as int, xv));
            assert(strictly_sorted(after)) by {
                assert forall|a: int, b: int| 0 <= a < b < after.len() implies lex_lt(#[trigger] after[a], #[trigger] after[b]) by {
                    if b < k {
                    } else if a < k && b == k {
                    } else if a < k && b > k {
                        assert(after[b] == before[b - 1]);
                        lemma_lex_trans(before[a], xv, before[b - 1]);
                    } else if a == k {
                        assert(after[b] == before[b - 1]);
                    } else {
                        assert(after[a] == before[a - 1]);
                        assert(after[b] == before[b - 1]);
                    }
                }
            }
            assert(after.to_set() =~= before.to_set().insert(xv)) by {
                assert forall|z: Seq<char>| after.to_set().contains(z) <==> before.to_set().insert(xv).contains(z) by {
                    if after.contains(z) {
                        let j = choose|j: int| 0 <= j < after.len() && after[j] == z;
                        if j < k {
                            assert(before[j] == z);
                        } else if j > k {
                            assert(before[j - 1] == z);
                        }
                    }
                    if before.contains(z) {
                        let j = choose|j: int| 0 <= j < before.len() && before[j] == z;
                        if j < k {
                            assert(after[j] == z);
                        } else {
                            assert(after[j + 1] == z);
                        }
                    }
                    if z == xv {
                        assert(after[k as int] == z);
                    }
                }
            }
        }
        assert(strings_view(items@).take(i + 1) =~= strings_view(items@).take(i as int).push(xv));
        assert(strings_view(items@).take(i + 1).to_set() =~= strings_view(items@).take(i as int).to_set().insert(xv)) by {
            strings_view(items@).take(i as int).lemma_push_to_set_commute(xv);
        }
        i = i + 1;
    }
    assert(strings_view(items@).take(items@.len() as int) =~= strings_view(items@));
    proof {
        let s = strings_view(items@).to_set();
        let w = strings_view(out@);
        assert(strictly_sorted(w) && w.to_set() == s);
        let c = sorted_elems(s);
        assert(strictly_sorted(c) && c.to_set() == s);
        lemma_sorted_unique(w, c);
    }
    out
}

/// `syms` with `s` appended unless it is already there.
pub open spec fn push_new(syms: Seq<Seq<char>>, s: Seq<char>) -> Seq<Seq<char>> {
    if syms.contains(s) {
        syms
    } else {
        syms.push(s)
    }
}

/// `v` holds the string `s`.
pub fn contains_string(v: &Vec<String>, s: &String) -> (r: bool)
    ensures
        r == strings_view(v@).contains(s@),
{
    let mut i: usize = 0;
    while i < v.len()
        invariant
            i <= v@.len(),
            forall|j: int| 0 <= j < i ==> strings_view(v@)[j] != s@,
        decreases v@.len() - i,
    {
        if v[i] == *s {
            assert(strings_view(v@)[i as int] == s@);
            return true;
        }
        i = i + 1;
    }
    false
}

/// Append `s` to `v` unless it is already there.
pub fn push_new_exec(v: &mut Vec<String>, s: String)
    ensures
        strings_view(final(v)@) == push_new(strings_view(old(v)@), s@),
{
    if !contains_string(v, &s) {
        let ghost before = strings_view(v@);
        v.push(s);
        assert(strings_view(v@) =~= before.push(s@));
    }
}

/// `v` without trailing copies of `c` (`str::trim_end_matches` with a char).
pub fn trim_end_char_exec(v: &[char], c: char) -> (r: Vec<char>)
    ensures
        r@ == trim_end_by(v@, is_char(c)),
{
    let mut b: usize = v.len();
    while b > 0 && v[b - 1] == c
        invariant
            b <= v@.len(),
            forall|j: int| b <= j < v@.len() ==> v@[j] == c,
        decreases b,
    {
        b = b - 1;
    }
    proof {
        lemma_trim_end_by_take(v@, is_char(c), b as int);
        if b > 0 {
            assert(v@.take(b as int).last() != c);
        }
        assert(trim_end_by(v@.take(b as int), is_char(c)) == v@.take(b as int));
    }
    slice_chars(v, 0, b)
}

/// Putting back a stripped prefix gives back the text.
pub proof fn lemma_strip_prefix_concat(s: Seq<char>, p: Seq<char>)
    requires
        strip_prefix(s, p) is Some,
    ensures
        p + strip_prefix(s, p)->0 == s,
{
    assert(p + s.skip(p.len() as int) =~= s);
}


/// A name `X_test` whose `X` does not begin with `test_` has `X` as the
/// part before its `_test` suffix, and begins with `test_` only when `X` is
/// `test` itself, in which case the rest is again `X`.
pub proof fn lemma_test_affixes(x: Seq<char>)
    requires
        !starts_with(x, "test_"@),
    ensures
        strip_suffix(x + "_test"@, "_test"@) == Some(x),
        strip_prefix(x + "_test"@, "test_"@) is None || strip_prefix(x + "_test"@, "test_"@) == Some(x),
{
    reveal_strlit("_test");
    reveal_strlit("test_");
    let s = x + "_test"@;
    assert(s.skip(s.len() - 5) =~= "_test"@);
    assert(s.take(s.len() - 5) =~= x);
    if starts_with(s, "test_"@) {
        if x.len() >= 5 {
            assert(x.take(5) =~= s.take(5));
        } else {
            let k = x.len() as int;
            assert(s[k] == '_');
            assert(s.take(5)[k] == "test_"@[k]);
            assert(k == 4);
            assert forall|q: int| 0 <= q < 4 implies x[q] == "test"@[q] by {
                reveal_strlit("test");
                assert(s.take(5)[q] == "test_"@[q]);
            }
            reveal_strlit("test");
            assert(x =~= "test"@);
            assert(s.skip(5) =~= x);
        }
    }
}

} // verus!
