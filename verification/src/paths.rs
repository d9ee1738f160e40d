//! Slash-separated file paths, as `std::path::Path` reads them on Unix.
//!
//! A path's components are the pieces between `/` that are neither empty nor
//! `.`; the file name is the last component unless that is `..`.  Positions
//! are kept as character ranges into the path so that callers can hand back
//! slices of their input.

use vstd::prelude::*;
use crate::text::{lemma_rfind_char_props, lemma_split_nonempty, rfind_char, rfind_char_exec, slice_chars, split_char};

verus! {

/// A piece of a path that `Path::components` reports (not empty, not `.`).
pub open spec fn is_component(seg: Seq<char>) -> bool {
    seg.len() > 0 && seg != seq!['.']
}

/// The pieces of `segs` that are components, in order.
pub open spec fn keep_components(segs: Seq<Seq<char>>) -> Seq<Seq<char>>
    decreases segs.len(),
{
    if segs.len() == 0 {
        segs
    } else {
        let k = keep_components(segs.drop_last());
        if is_component(segs.last()) {
            k.push(segs.last())
        } else {
            k
        }
    }
}

/// The components of path `p`.
pub open spec fn components(p: Seq<char>) -> Seq<Seq<char>> {
    keep_components(split_char(p, '/'))
}

/// `Path::file_name`: the last component, unless there is none or it is `..`.
pub open spec fn file_name(p: Seq<char>) -> Option<Seq<char>> {
    let c = components(p);
    if c.len() == 0 || c.last() == seq!['.', '.'] {
        None
    } else {
        Some(c.last())
    }
}

/// `Path::parent` followed by `file_name`: the component before the last.
pub open spec fn parent_file_name(p: Seq<char>) -> Option<Seq<char>> {
    let c = components(p);
    if c.len() < 2 || c[c.len() - 2] == seq!['.', '.'] {
        None
    } else {
        Some(c[c.len() - 2])
    }
}

/// The stem of a file name: the part before its last `.`, unless that `.`
/// is the first character (`Path::file_stem`).
pub open spec fn stem_of(name: Seq<char>) -> Seq<char> {
    match rfind_char(name, '.') {
        Some(k) => if k > 0 {
            name.take(k)
        } else {
            name
        },
        None => name,
    }
}

/// `Path::file_stem`.
pub open spec fn file_stem(p: Seq<char>) -> Option<Seq<char>> {
    match file_name(p) {
        Some(n) => Some(stem_of(n)),
        None => None,
    }
}

/// Character ranges of `s` are well formed.
pub open spec fn ranges_ok(s: Seq<char>, r: Seq<(usize, usize)>) -> bool {
    forall|k: int| 0 <= k < r.len() ==> (#[trigger] r[k]).0 <= r[k].1 <= s.len()
}

/// The pieces of `s` that ranges `r` cut out.
pub open spec fn range_views(s: Seq<char>, r: Seq<(usize, usize)>) -> Seq<Seq<char>> {
    r.map_values(|p: (usize, usize)| s.subrange(p.0 as int, p.1 as int))
}

/// The ranges of the pieces between occurrences of `sep`.
pub fn split_ranges(v: &[char], sep: char) -> (r: Vec<(usize, usize)>)
    ensures
        ranges_ok(v@, r@),
        range_views(v@, r@) == split_char(v@, sep),
{
    let mut parts: Vec<(usize, usize)> = Vec::new();
    let mut start: usize = 0;
    let mut i: usize = 0;
    assert(v@.take(0) =~= Seq::<char>::empty());
    assert(v@.subrange(0, 0) =~= Seq::<char>::empty());
    assert(range_views(v@, parts@).push(v@.subrange(0, 0)) =~= split_char(v@.take(0), sep));
    while i < v.len()
        invariant
            start <= i <= v@.len(),
            ranges_ok(v@, parts@),
            forall|k: int| 0 <= k < parts@.len() ==> (#[trigger] parts@[k]).1 <= start,
            range_views(v@, parts@).push(v@.subrange(start as int, i as int)) == split_char(
                v@.take(i as int),
                sep,
            ),
        decreases v@.len() - i,
    {
        proof {
            lemma_split_nonempty(v@.take(i as int), sep);
        }
        let ghost prev = v@.take(i as int);
        let ghost old_parts = parts@;
        let ghost old_cur = v@.subrange(start as int, i as int);
        let c = v[i];
        if c == sep {
            parts.push((start, i));
            start = i + 1;
            assert(range_views(v@, parts@) =~= range_views(v@, old_parts).push(old_cur));
            assert(v@.subrange(start as int, (i + 1) as int) =~= Seq::<char>::empty());
        } else {
            assert(range_views(v@, parts@) =~= range_views(v@, old_parts));
            assert(v@.subrange(start as int, (i + 1) as int) =~= old_cur.push(c));
        }
        i = i + 1;
        assert(v@.take(i as int).drop_last() == prev);
        assert(v@.take(i as int).last() == c);
        assert(range_views(v@, parts@).push(v@.subrange(start as int, i as int))
            =~= split_char(v@.take(i as int), sep));
    }
    assert(v@.take(v@.len() as int) == v@);
    let ghost old_parts = parts@;
    parts.push((start, i));
    assert(range_views(v@, parts@) =~= range_views(v@, old_parts).push(
        v@.subrange(start as int, i as int),
    ));
    parts
}

/// Whether the characters `v[a..b]` form a component.
fn is_component_exec(v: &[char], a: usize, b: usize) -> (r: bool)
    requires
        a <= b <= v@.len(),
    ensures
        r == is_component(v@.subrange(a as int, b as int)),
{
    if a == b {
        return false;
    }
    if b - a == 1 && v[a] == '.' {
        assert(v@.subrange(a as int, b as int) =~= seq!['.']);
        return false;
    }
    let ghost sv = v@.subrange(a as int, b as int);
    assert(sv != seq!['.']) by {
        if sv == seq!['.'] {
            assert(sv.len() == 1);
            assert(sv[0] == '.');
        }
    }
    true
}

/// The ranges of the components of path `v`.
pub fn component_ranges(v: &[char]) -> (r: Vec<(usize, usize)>)
    ensures
        ranges_ok(v@, r@),
        range_views(v@, r@) == components(v@),
{
    let segs = split_ranges(v, '/');
    let ghost sv = range_views(v@, segs@);
    let mut out: Vec<(usize, usize)> = Vec::new();
    let mut i: usize = 0;
    while i < segs.len()
        invariant
            ranges_ok(v@, segs@),
            sv == range_views(v@, segs@),
            i <= segs@.len(),
            ranges_ok(v@, out@),
            range_views(v@, out@) == keep_components(sv.take(i as int)),
        decreases segs@.len() - i,
    {
        let (a, b) = segs[i];
        let ghost old_out = out@;
        assert(sv.take((i + 1) as int).drop_last() == sv.take(i as int));
        assert(sv.take((i + 1) as int).last() == v@.subrange(a as int, b as int));
        if is_component_exec(v, a, b) {
            out.push((a, b));
            assert(range_views(v@, out@) =~= range_views(v@, old_out).push(
                v@.subrange(a as int, b as int),
            ));
        }
        i = i + 1;
    }
    assert(sv.take(segs@.len() as int) == sv);
    out
}

/// The range of the file name of path `v`.
pub fn file_name_range(v: &[char]) -> (r: Option<(usize, usize)>)
    ensures
        match r {
            Some((a, b)) => a <= b <= v@.len() && file_name(v@) == Some(
                v@.subrange(a as int, b as int),
            ),
            None => file_name(v@) is None,
        },
{
    let comps = component_ranges(v);
    let ghost cv = range_views(v@, comps@);
    if comps.len() == 0 {
        return None;
    }
    let (a, b) = comps[comps.len() - 1];
    assert(cv.last() == v@.subrange(a as int, b as int));
    if b - a == 2 && v[a] == '.' && v[a + 1] == '.' {
        assert(v@.subrange(a as int, b as int) =~= seq!['.', '.']);
        return None;
    }
    if b - a == 2 {
        assert(v@.subrange(a as int, b as int)[0] != '.' || v@.subrange(a as int, b as int)[1]
            != '.');
    }
    Some((a, b))
}

/// The range of the component before the last, when it is a normal name.
pub fn parent_name_range(v: &[char]) -> (r: Option<(usize, usize)>)
    ensures
        match r {
            Some((a, b)) => a <= b <= v@.len() && parent_file_name(v@) == Some(
                v@.subrange(a as int, b as int),
            ),
            None => parent_file_name(v@) is None,
        },
{
    let comps = component_ranges(v);
    let ghost cv = range_views(v@, comps@);
    if comps.len() < 2 {
        return None;
    }
    let (a, b) = comps[comps.len() - 2];
    assert(cv[cv.len() - 2] == v@.subrange(a as int, b as int));
    if b - a == 2 && v[a] == '.' && v[a + 1] == '.' {
        assert(v@.subrange(a as int, b as int) =~= seq!['.', '.']);
        return None;
    }
    if b - a == 2 {
        assert(v@.subrange(a as int, b as int)[0] != '.' || v@.subrange(a as int, b as int)[1]
            != '.');
    }
    Some((a, b))
}

/// The range of the stem of the name `v[a..b]`.
pub fn stem_range(v: &[char], a: usize, b: usize) -> (r: (usize, usize))
    requires
        a <= b <= v@.len(),
    ensures
        a <= r.0 <= r.1 <= b,
        v@.subrange(r.0 as int, r.1 as int) == stem_of(v@.subrange(a as int, b as int)),
{
    let name = slice_chars(v, a, b);
    proof {
        lemma_rfind_char_props(name@, '.');
    }
    match rfind_char_exec(name.as_slice(), '.') {
        Some(k) => {
            if k > 0 {
                assert(v@.subrange(a as int, (a + k) as int) =~= name@.take(k as int));
                (a, a + k)
            } else {
                (a, b)
            }
        },
        None => (a, b),
    }
}

pub proof fn lemma_split_join(s: Seq<char>, n: Seq<char>)
    requires
        !n.contains('/'),
    ensures
        split_char(s + seq!['/'] + n, '/') == split_char(s, '/').push(n),
    decreases n.len(),
{
    if n.len() == 0 {
        let full = s + seq!['/'] + n;
        assert(full =~= s.push('/'));
        assert(full.drop_last() =~= s);
        assert(full.last() == '/');
        assert(split_char(full, '/') == split_char(full.drop_last(), '/').push(Seq::<char>::empty()));
        assert(n =~= Seq::<char>::empty());
    } else {
        let m = n.drop_last();
        assert(!m.contains('/')) by {
            if m.contains('/') {
                let i = choose|i: int| 0 <= i < m.len() && m[i] == '/';
                assert(n[i] == '/');
            }
        }
        lemma_split_join(s, m);
        let full = s + seq!['/'] + n;
        assert(full.drop_last() =~= s + seq!['/'] + m);
        assert(full.last() == n.last());
        assert(n.last() != '/') by {
            assert(n.contains(n[n.len() - 1]));
        }
        lemma_split_nonempty(s, '/');
        let p = split_char(s, '/').push(m);
        assert(p.update(p.len() - 1, p.last().push(n.last())) =~= split_char(s, '/').push(n)) by {
            assert(m.push(n.last()) =~= n);
        }
        assert(split_char(full, '/') == p.update(p.len() - 1, p.last().push(n.last())));
    }
}

/// The file name of `dir/name` is `name`, for a name without `/` that is
/// neither empty, `.` nor `..`.
pub proof fn lemma_file_name_join(d: Seq<char>, n: Seq<char>)
    requires
        n.len() > 0,
        !n.contains('/'),
        n != seq!['.'],
        n != seq!['.', '.'],
    ensures
        file_name(d + seq!['/'] + n) == Some(n),
{
    lemma_split_join(d, n);
    let segs = split_char(d, '/');
    assert(segs.push(n).drop_last() =~= segs);
    assert(components(d + seq!['/'] + n) == keep_components(segs).push(n));
}

} // verus!
