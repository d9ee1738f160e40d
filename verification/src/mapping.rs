//! The decisions that map test files to production files: the stem-only
//! fallback, the trace of each test file's imports and the symbols behind
//! each match, the filter by the names that assertions use, inline-test
//! self-mapping and the update of each mapping's strategy.  Reading files
//! and resolving paths is left to the caller; these functions take what
//! was read as plain values.

use vstd::prelude::*;
use crate::observe::MappingStrategy;
use crate::text::{
    chars_of, contains_string, ends_with, eq_chars, is_char, opt_view, push_new, push_new_exec,
    string_of, strings_view, trim_end_by, opt_string_view,
};
use crate::lang_python::observe::{py_production_stem, py_test_stem};
use crate::lang_rust::observe::{
    WorkspaceMember, best_member, detect_inline_tests, has_inline_tests, member_index_for_path,
    member_roots, rs_production_stem,
};
use crate::syntax::rust_syntax;

verus! {

/// The views of a list of test-file lists (one per production file).
pub open spec fn lists_view(v: Seq<Vec<String>>) -> Seq<Seq<Seq<char>>> {
    v.map_values(|l: Vec<String>| strings_view(l@))
}

// ---------------------------------------------------------------------------
// Stem-only fallback
// ---------------------------------------------------------------------------

/// The indices among the first `n` production files whose production stem
/// is `s`.
pub open spec fn stem_hits(prods: Seq<Seq<char>>, s: Seq<char>, n: int) -> Seq<int>
    decreases n,
{
    if n <= 0 {
        Seq::<int>::empty()
    } else {
        let prev = stem_hits(prods, s, n - 1);
        if py_production_stem(prods[n - 1]) == Some(s) {
            prev.push(n - 1)
        } else {
            prev
        }
    }
}

/// The production file that the stem-only fallback gives test `t`: the
/// one production file whose stem is the test's stem; none when no file or
/// several files share that stem (those are left to import tracing).
pub open spec fn stem_fallback_target(prods: Seq<Seq<char>>, t: Seq<char>) -> Option<int> {
    match py_test_stem(t) {
        Some(s) => {
            let h = stem_hits(prods, s, prods.len() as int);
            if h.len() == 1 {
                Some(h[0])
            } else {
                None
            }
        },
        None => None,
    }
}

/// Test `t` is listed for some production file.
pub open spec fn listed(lists: Seq<Seq<Seq<char>>>, t: Seq<char>) -> bool {
    exists|i: int| 0 <= i < lists.len() && lists[i].contains(t)
}

/// The lists after the stem-only fallback has run over the first `n`
/// tests; tests already listed in `core` are skipped.
pub open spec fn stem_fallback_upto(
    core: Seq<Seq<Seq<char>>>,
    prods: Seq<Seq<char>>,
    tests: Seq<Seq<char>>,
    n: int,
) -> Seq<Seq<Seq<char>>>
    decreases n,
{
    if n <= 0 {
        core
    } else {
        let prev = stem_fallback_upto(core, prods, tests, n - 1);
        let t = tests[n - 1];
        if listed(core, t) {
            prev
        } else {
            match stem_fallback_target(prods, t) {
                Some(i) => prev.update(i, push_new(prev[i], t)),
                None => prev,
            }
        }
    }
}

fn listed_exec(lists: &Vec<Vec<String>>, t: &String) -> (r: bool)
    ensures
        r == listed(lists_view(lists@), t@),
{
    let ghost lv = lists_view(lists@);
    let mut i: usize = 0;
    while i < lists.len()
        invariant
            lv == lists_view(lists@),
            i <= lists@.len(),
            forall|j: int| 0 <= j < i ==> !lv[j].contains(t@),
        decreases lists@.len() - i,
    {
        if contains_string(&lists[i], t) {
            assert(lv[i as int] == strings_view(lists@[i as int]@));
            return true;
        }
        i = i + 1;
    }
    false
}

fn same_opt(a: Option<&str>, b: Option<&str>) -> (r: bool)
    ensures
        r == (opt_view(a) == opt_view(b)),
{
    match (a, b) {
        (Some(x), Some(y)) => {
            let xv = chars_of(x);
            let yv = chars_of(y);
            eq_chars(xv.as_slice(), yv.as_slice())
        },
        (None, None) => true,
        _ => false,
    }
}

fn stem_fallback_target_exec(prods: &Vec<String>, t: &String) -> (r: Option<usize>)
    ensures
        match r {
            Some(i) => stem_fallback_target(strings_view(prods@), t@) == Some(i as int) && i
                < prods@.len(),
            None => stem_fallback_target(strings_view(prods@), t@) is None,
        },
{
    let ghost pv = strings_view(prods@);
    let ts = crate::lang_python::observe::test_stem(t.as_str());
    if ts.is_none() {
        return None;
    }
    let ghost s = opt_view(ts)->0;
    let mut hits: Vec<usize> = Vec::new();
    let mut i: usize = 0;
    while i < prods.len()
        invariant
            pv == strings_view(prods@),
            opt_view(ts) == Some(s),
            i <= prods@.len(),
            hits@.map_values(|k: usize| k as int) == stem_hits(pv, s, i as int),
            forall|k: int| 0 <= k < hits@.len() ==> #[trigger] hits@[k] < prods@.len(),
        decreases prods@.len() - i,
    {
        let ps = crate::lang_python::observe::production_stem(prods[i].as_str());
        let ghost before = hits@.map_values(|k: usize| k as int);
        if same_opt(ps, ts) {
            hits.push(i);
            assert(hits@.map_values(|k: usize| k as int) =~= before.push(i as int));
        } else {
            assert(hits@.map_values(|k: usize| k as int) =~= before);
        }
        i = i + 1;
    }
    if hits.len() == 1 {
        Some(hits[0])
    } else {
        None
    }
}

/// Layer-1 stem-only fallback: each test that no production file lists
/// yet is listed for the one production file whose stem equals the
/// test's stem (`tests/test_user.py` for `src/app/user.py`); when several
/// production files share the stem, the test is left unlisted.
pub fn stem_only_fallback(
    test_lists: &mut Vec<Vec<String>>,
    production_files: &Vec<String>,
    test_files: &Vec<String>,
)
    requires
        old(test_lists)@.len() == production_files@.len(),
    ensures
        lists_view(final(test_lists)@) == stem_fallback_upto(
            lists_view(old(test_lists)@),
            strings_view(production_files@),
            strings_view(test_files@),
            test_files@.len() as int,
        ),
{
    let ghost core = lists_view(test_lists@);
    let ghost pv = strings_view(production_files@);
    let ghost tv = strings_view(test_files@);
    let mut skip: Vec<bool> = Vec::new();
    let mut k: usize = 0;
    while k < test_files.len()
        invariant
            core == lists_view(test_lists@),
            tv == strings_view(test_files@),
            k <= test_files@.len(),
            skip@.len() == k,
            forall|j: int| 0 <= j < k ==> skip@[j] == listed(core, tv[j]),
        decreases test_files@.len() - k,
    {
        let b = listed_exec(test_lists, &test_files[k]);
        skip.push(b);
        k = k + 1;
    }
    let mut n: usize = 0;
    while n < test_files.len()
        invariant
            pv == strings_view(production_files@),
            tv == strings_view(test_files@),
            n <= test_files@.len(),
            skip@.len() == test_files@.len(),
            forall|j: int| 0 <= j < test_files@.len() ==> skip@[j] == listed(core, tv[j]),
            test_lists@.len() == production_files@.len(),
            lists_view(test_lists@) == stem_fallback_upto(core, pv, tv, n as int),
        decreases test_files@.len() - n,
    {
        let ghost prev = lists_view(test_lists@);
        if !skip[n] {
            match stem_fallback_target_exec(production_files, &test_files[n]) {
                Some(i) => {
                    let mut l = test_lists.remove(i);
                    push_new_exec(&mut l, test_files[n].clone());
                    let ghost lv = strings_view(l@);
                    test_lists.insert(i, l);
                    assert(lists_view(test_lists@) =~= prev.update(i as int, lv));
                },
                None => {},
            }
        }
        n = n + 1;
    }
}

// ---------------------------------------------------------------------------
// Strategies
// ---------------------------------------------------------------------------

/// The strategy of production file `i` after import tracing: import
/// tracing when forced (a Django-layout match) or when layer 1 gave it no
/// test but it has tests now; otherwise unchanged.
pub open spec fn updated_strategy(
    old_strategy: MappingStrategy,
    layer1: Seq<Seq<char>>,
    now: Seq<Seq<char>>,
    forced: bool,
) -> MappingStrategy {
    if forced || (layer1.len() == 0 && now.len() > 0) {
        MappingStrategy::ImportTracing
    } else {
        old_strategy
    }
}

/// Update each production file's strategy after import tracing (see
/// [`updated_strategy`]); `forced` lists the files matched only through a
/// Django `manage.py` root.
pub fn update_strategies(
    strategies: &mut Vec<MappingStrategy>,
    layer1_lists: &Vec<Vec<String>>,
    lists: &Vec<Vec<String>>,
    forced: &Vec<usize>,
)
    requires
        old(strategies)@.len() == layer1_lists@.len(),
        old(strategies)@.len() == lists@.len(),
    ensures
        final(strategies)@.len() == old(strategies)@.len(),
        forall|i: int|
            0 <= i < old(strategies)@.len() ==> final(strategies)@[i] == updated_strategy(
                old(strategies)@[i],
                strings_view(layer1_lists@[i]@),
                strings_view(lists@[i]@),
                forced@.contains(i as usize),
            ),
{
    let ghost s0 = strategies@;
    let mut i: usize = 0;
    while i < strategies.len()
        invariant
            s0 == old(strategies)@,
            strategies@.len() == s0.len(),
            s0.len() == layer1_lists@.len(),
            s0.len() == lists@.len(),
            i <= s0.len(),
            forall|j: int|
                0 <= j < i ==> strategies@[j] == updated_strategy(
                    s0[j],
                    strings_view(layer1_lists@[j]@),
                    strings_view(lists@[j]@),
                    forced@.contains(j as usize),
                ),
            forall|j: int| i <= j < s0.len() ==> strategies@[j] == s0[j],
        decreases s0.len() - i,
    {
        let mut is_forced = false;
        let mut x: usize = 0;
        while x < forced.len()
            invariant
                x <= forced@.len(),
                is_forced == (exists|y: int| 0 <= y < x && forced@[y] == i),
            decreases forced@.len() - x,
        {
            if forced[x] == i {
                is_forced = true;
            }
            x = x + 1;
        }
        proof {
            if is_forced {
                let y = choose|y: int| 0 <= y < x && forced@[y] == i;
                assert(forced@.contains(i));
            }
        }
        if is_forced || (layer1_lists[i].len() == 0 && lists[i].len() > 0) {
            strategies.set(i, MappingStrategy::ImportTracing);
        }
        i = i + 1;
    }
}

// ---------------------------------------------------------------------------
// Symbols behind each import match
// ---------------------------------------------------------------------------

/// The position of key `k` in the table `m` (its last entry with that key).
pub open spec fn find_key<K, V>(m: Seq<(K, V)>, k: K) -> Option<int>
    decreases m.len(),
{
    if m.len() == 0 {
        None
    } else if m.last().0 == k {
        Some(m.len() - 1)
    } else {
        find_key(m.drop_last(), k)
    }
}

/// The view of a table from production-file index to symbols.
pub open spec fn sym_table_view(v: Seq<(usize, Vec<String>)>) -> Seq<(usize, Seq<Seq<char>>)> {
    v.map_values(|e: (usize, Vec<String>)| (e.0, strings_view(e.1@)))
}

/// `existing` with the first `n` of `syms` added, each unless present.
pub open spec fn push_all_new(existing: Seq<Seq<char>>, syms: Seq<Seq<char>>, n: int) -> Seq<
    Seq<char>,
>
    decreases n,
{
    if n <= 0 {
        existing
    } else {
        push_new(push_all_new(existing, syms, n - 1), syms[n - 1])
    }
}

/// The table with `syms` added to the symbols of index `k`.
pub open spec fn add_symbols(
    m: Seq<(usize, Seq<Seq<char>>)>,
    k: usize,
    syms: Seq<Seq<char>>,
) -> Seq<(usize, Seq<Seq<char>>)> {
    match find_key(m, k) {
        Some(j) => m.update(j, (k, push_all_new(m[j].1, syms, syms.len() as int))),
        None => m.push((k, push_all_new(Seq::<Seq<char>>::empty(), syms, syms.len() as int))),
    }
}

/// The table after the first `n` of `all`: each index that `before` does
/// not hold gets the symbols `syms`.
pub open spec fn track_upto(
    m: Seq<(usize, Seq<Seq<char>>)>,
    all: Seq<usize>,
    before: Seq<usize>,
    syms: Seq<Seq<char>>,
    n: int,
) -> Seq<(usize, Seq<Seq<char>>)>
    decreases n,
{
    if n <= 0 {
        m
    } else {
        let prev = track_upto(m, all, before, syms, n - 1);
        if before.contains(all[n - 1]) {
            prev
        } else {
            add_symbols(prev, all[n - 1], syms)
        }
    }
}

proof fn lemma_find_key<K, V>(m: Seq<(K, V)>, k: K)
    ensures
        find_key(m, k) matches Some(j) ==> 0 <= j < m.len() && m[j].0 == k,
    decreases m.len(),
{
    if m.len() > 0 {
        lemma_find_key(m.drop_last(), k);
    }
}

proof fn lemma_find_key_scan<K, V>(m: Seq<(K, V)>, k: K, i: int)
    requires
        0 <= i <= m.len(),
        forall|j: int| i <= j < m.len() ==> m[j].0 != k,
    ensures
        i > 0 && m[i - 1].0 == k ==> find_key(m, k) == Some(i - 1),
        i == 0 ==> find_key(m, k) is None,
    decreases m.len() - i,
{
    if i < m.len() {
        lemma_find_key_scan(m.drop_last(), k, i);
    }
}

fn find_index_key(m: &Vec<(usize, Vec<String>)>, k: usize) -> (r: Option<usize>)
    ensures
        match r {
            Some(j) => find_key(sym_table_view(m@), k) == Some(j as int) && j < m@.len(),
            None => find_key(sym_table_view(m@), k) is None,
        },
{
    let ghost mv = sym_table_view(m@);
    let mut i = m.len();
    while i > 0
        invariant
            mv == sym_table_view(m@),
            i <= m@.len(),
            forall|j: int| i <= j < m@.len() ==> mv[j].0 != k,
        decreases i,
    {
        if m[i - 1].0 == k {
            proof {
                lemma_find_key_scan(mv, k, i as int);
            }
            return Some(i - 1);
        }
        i = i - 1;
    }
    proof {
        lemma_find_key_scan(mv, k, 0);
    }
    None
}

fn push_all_new_exec(list: &mut Vec<String>, syms: &Vec<String>)
    ensures
        strings_view(final(list)@) == push_all_new(
            strings_view(old(list)@),
            strings_view(syms@),
            syms@.len() as int,
        ),
{
    let ghost l0 = strings_view(list@);
    let ghost sv = strings_view(syms@);
    let mut i: usize = 0;
    while i < syms.len()
        invariant
            sv == strings_view(syms@),
            i <= syms@.len(),
            strings_view(list@) == push_all_new(l0, sv, i as int),
        decreases syms@.len() - i,
    {
        push_new_exec(list, syms[i].clone());
        i = i + 1;
    }
}

/// Record that the production files newly matched (in `all_matched` but
/// not in `before`) were matched by the import of `symbols`: their symbol
/// lists gain `symbols`, each symbol once.
pub fn track_new_matches(
    all_matched: &Vec<usize>,
    before: &Vec<usize>,
    symbols: &Vec<String>,
    idx_to_symbols: &mut Vec<(usize, Vec<String>)>,
)
    ensures
        sym_table_view(final(idx_to_symbols)@) == track_upto(
            sym_table_view(old(idx_to_symbols)@),
            all_matched@,
            before@,
            strings_view(symbols@),
            all_matched@.len() as int,
        ),
{
    let ghost m0 = sym_table_view(idx_to_symbols@);
    let ghost sv = strings_view(symbols@);
    let mut n: usize = 0;
    while n < all_matched.len()
        invariant
            sv == strings_view(symbols@),
            n <= all_matched@.len(),
            sym_table_view(idx_to_symbols@) == track_upto(m0, all_matched@, before@, sv, n as int),
        decreases all_matched@.len() - n,
    {
        let k = all_matched[n];
        let mut seen = false;
        let mut x: usize = 0;
        while x < before.len()
            invariant
                x <= before@.len(),
                seen == (exists|y: int| 0 <= y < x && before@[y] == k),
            decreases before@.len() - x,
        {
            if before[x] == k {
                seen = true;
            }
            x = x + 1;
        }
        proof {
            if seen {
                let y = choose|y: int| 0 <= y < x && before@[y] == k;
                assert(before@.contains(k));
            }
        }
        if !seen {
            let ghost prev = sym_table_view(idx_to_symbols@);
            match find_index_key(idx_to_symbols, k) {
                Some(j) => {
                    proof {
                        lemma_find_key(prev, k);
                    }
                    let (k0, mut list) = idx_to_symbols.remove(j);
                    push_all_new_exec(&mut list, symbols);
                    let ghost lv = strings_view(list@);
                    idx_to_symbols.insert(j, (k0, list));
                    assert(sym_table_view(idx_to_symbols@) =~= prev.update(j as int, (k, lv)));
                },
                None => {
                    let mut list: Vec<String> = Vec::new();
                    assert(strings_view(list@) =~= Seq::<Seq<char>>::empty());
                    push_all_new_exec(&mut list, symbols);
                    let ghost lv = strings_view(list@);
                    idx_to_symbols.push((k, list));
                    assert(sym_table_view(idx_to_symbols@) =~= prev.push((k, lv)));
                },
            }
        }
        n = n + 1;
    }
}

// ---------------------------------------------------------------------------
// Filter by the names that assertions use
// ---------------------------------------------------------------------------

/// The symbols recorded for production index `k`.
pub open spec fn symbols_for(m: Seq<(usize, Seq<Seq<char>>)>, k: usize) -> Seq<Seq<char>> {
    match find_key(m, k) {
        Some(j) => m[j].1,
        None => Seq::<Seq<char>>::empty(),
    }
}

/// Some symbol recorded for `k` is a name that an assertion uses.
pub open spec fn asserted_hit(
    m: Seq<(usize, Seq<Seq<char>>)>,
    asserted: Seq<Seq<char>>,
    k: usize,
) -> bool {
    exists|x: int| 0 <= x < symbols_for(m, k).len() && asserted.contains(symbols_for(m, k)[x])
}

/// The production indices that a test keeps after the assertion filter:
/// with no asserted names, or when no matched index was imported through
/// an asserted name, all matches (the safe fallback); otherwise the
/// matches imported through an asserted name, plus the direct imports.
pub open spec fn final_matches(
    all: Seq<usize>,
    m: Seq<(usize, Seq<Seq<char>>)>,
    asserted: Seq<Seq<char>>,
    direct: Seq<usize>,
) -> Set<usize> {
    if asserted.len() == 0 || !(exists|k: usize| all.contains(k) && asserted_hit(m, asserted, k)) {
        all.to_set()
    } else {
        Set::new(|k: usize| all.contains(k) && (asserted_hit(m, asserted, k) || direct.contains(k)))
    }
}

fn asserted_hit_exec(m: &Vec<(usize, Vec<String>)>, asserted: &Vec<String>, k: usize) -> (r: bool)
    ensures
        r == asserted_hit(sym_table_view(m@), strings_view(asserted@), k),
{
    let ghost mv = sym_table_view(m@);
    let ghost av = strings_view(asserted@);
    match find_index_key(m, k) {
        Some(j) => {
            let syms = &m[j].1;
            assert(symbols_for(mv, k) == strings_view(syms@));
            let mut x: usize = 0;
            while x < syms.len()
                invariant
                    av == strings_view(asserted@),
                    mv == sym_table_view(m@),
                    symbols_for(mv, k) == strings_view(syms@),
                    x <= syms@.len(),
                    forall|y: int| 0 <= y < x ==> !av.contains(symbols_for(mv, k)[y]),
                decreases syms@.len() - x,
            {
                if contains_string(asserted, &syms[x]) {
                    assert(strings_view(syms@)[x as int] == syms@[x as int]@);
                    assert(0 <= x < symbols_for(mv, k).len() && av.contains(
                        symbols_for(mv, k)[x as int],
                    ));
                    assert(asserted_hit(mv, av, k));
                    return true;
                }
                x = x + 1;
            }
            false
        },
        None => false,
    }
}

fn contains_index(v: &Vec<usize>, k: usize) -> (r: bool)
    ensures
        r == v@.contains(k),
{
    let mut x: usize = 0;
    while x < v.len()
        invariant
            x <= v@.len(),
            forall|y: int| 0 <= y < x ==> v@[y] != k,
        decreases v@.len() - x,
    {
        if v[x] == k {
            assert(v@[x as int] == k);
            return true;
        }
        x = x + 1;
    }
    false
}

/// The assertion filter of import tracing (see [`final_matches`]).
pub fn assertion_filter(
    all_matched: &Vec<usize>,
    idx_to_symbols: &Vec<(usize, Vec<String>)>,
    asserted: &Vec<String>,
    direct: &Vec<usize>,
) -> (r: Vec<usize>)
    ensures
        r@.to_set() == final_matches(
            all_matched@,
            sym_table_view(idx_to_symbols@),
            strings_view(asserted@),
            direct@,
        ),
{
    let ghost mv = sym_table_view(idx_to_symbols@);
    let ghost av = strings_view(asserted@);
    let mut hits: Vec<bool> = Vec::new();
    let mut any_hit = false;
    let mut i: usize = 0;
    while i < all_matched.len()
        invariant
            mv == sym_table_view(idx_to_symbols@),
            av == strings_view(asserted@),
            i <= all_matched@.len(),
            hits@.len() == i,
            forall|j: int| 0 <= j < i ==> hits@[j] == asserted_hit(mv, av, all_matched@[j]),
            any_hit == (exists|j: int| 0 <= j < i && hits@[j]),
        decreases all_matched@.len() - i,
    {
        let h = asserted_hit_exec(idx_to_symbols, asserted, all_matched[i]);
        let ghost hits0 = hits@;
        hits.push(h);
        assert(hits@[i as int] == h);
        assert forall|j: int| 0 <= j < i implies hits@[j] == hits0[j] by {}
        if h {
            any_hit = true;
        }
        proof {
            if any_hit {
                if h {
                    assert(0 <= i < i + 1 && hits@[i as int]);
                } else {
                    let j = choose|j: int| 0 <= j < i && hits0[j];
                    assert(hits@[j]);
                }
            } else {
                assert forall|j: int| 0 <= j < i + 1 implies !hits@[j] by {
                    if j < i {
                        assert(hits@[j] == hits0[j]);
                    }
                }
            }
        }
        i = i + 1;
    }
    let mut out: Vec<usize> = Vec::new();
    if asserted.len() == 0 || !any_hit {
        let mut x: usize = 0;
        while x < all_matched.len()
            invariant
                x <= all_matched@.len(),
                out@ == all_matched@.take(x as int),
            decreases all_matched@.len() - x,
        {
            out.push(all_matched[x]);
            x = x + 1;
            assert(out@ =~= all_matched@.take(x as int));
        }
        assert(all_matched@.take(all_matched@.len() as int) =~= all_matched@);
        proof {
            if asserted.len() > 0 {
                assert(!(exists|k: usize| all_matched@.contains(k) && asserted_hit(mv, av, k))) by {
                    if exists|k: usize| all_matched@.contains(k) && asserted_hit(mv, av, k) {
                        let k = choose|k: usize| all_matched@.contains(k) && asserted_hit(mv, av, k);
                        let j = choose|j: int| 0 <= j < all_matched@.len() && all_matched@[j] == k;
                        assert(hits@[j]);
                    }
                }
            }
        }
        return out;
    }
    let mut x: usize = 0;
    while x < all_matched.len()
        invariant
            mv == sym_table_view(idx_to_symbols@),
            av == strings_view(asserted@),
            x <= all_matched@.len(),
            hits@.len() == all_matched@.len(),
            forall|j: int| 0 <= j < hits@.len() ==> hits@[j] == asserted_hit(mv, av, all_matched@[j]),
            forall|k: usize|
                out@.contains(k) <==> (exists|j: int|
                    0 <= j < x && all_matched@[j] == k && (asserted_hit(mv, av, k)
                        || direct@.contains(k))),
        decreases all_matched@.len() - x,
    {
        let k = all_matched[x];
        let keep = hits[x] || contains_index(direct, k);
        let ghost before = out@;
        if keep {
            out.push(k);
        }
        assert forall|q: usize|
            out@.contains(q) <==> (exists|j: int|
                0 <= j < x + 1 && all_matched@[j] == q && (asserted_hit(mv, av, q)
                    || direct@.contains(q))) by {
            if out@.contains(q) {
                if before.contains(q) {
                    let j = choose|j: int|
                        0 <= j < x && all_matched@[j] == q && (asserted_hit(mv, av, q)
                            || direct@.contains(q));
                    assert(0 <= j < x + 1);
                } else {
                    let p = choose|p: int| 0 <= p < out@.len() && out@[p] == q;
                    assert(keep && p == before.len());
                    assert(q == k);
                    assert(all_matched@[x as int] == q);
                }
            }
            if exists|j: int|
                0 <= j < x + 1 && all_matched@[j] == q && (asserted_hit(mv, av, q)
                    || direct@.contains(q)) {
                let j = choose|j: int|
                    0 <= j < x + 1 && all_matched@[j] == q && (asserted_hit(mv, av, q)
                        || direct@.contains(q));
                if j == x {
                    assert(keep);
                    assert(out@[out@.len() - 1] == q);
                } else {
                    assert(before.contains(q));
                    let p = choose|p: int| 0 <= p < before.len() && before[p] == q;
                    assert(out@[p] == q);
                }
            }
        }
        x = x + 1;
    }
    proof {
        let j0 = choose|j: int| 0 <= j < hits@.len() && hits@[j];
        assert(all_matched@.contains(all_matched@[j0]));
        assert(out@.to_set() =~= final_matches(all_matched@, mv, av, direct@));
    }
    out
}

// ---------------------------------------------------------------------------
// Bare relative imports
// ---------------------------------------------------------------------------

/// Every character of `s` is a `.`.
pub open spec fn all_dots(s: Seq<char>) -> bool {
    forall|i: int| 0 <= i < s.len() ==> s[i] == '.'
}

/// For a bare relative specifier (`../` from `from .. import x`: dots and
/// a final `/`), the dots before the final `/`.
pub open spec fn bare_relative_prefix(spec: Seq<char>) -> Option<Seq<char>> {
    if ends_with(spec, "/"@) && all_dots(trim_end_by(spec, is_char('/'))) {
        Some(spec.take(spec.len() - 1))
    } else {
        None
    }
}

/// The specifier of symbol `sym` of a bare relative import with prefix
/// `prefix` (`..` and `x` give `../x`).
pub open spec fn symbol_specifier(prefix: Seq<char>, sym: Seq<char>) -> Seq<char> {
    prefix + "/"@ + sym
}

/// For a bare relative import (`from .. import x, y`, specifier `../`),
/// the specifier of each imported symbol (`../x`, `../y`), which is how
/// such imports are resolved; `None` for any other specifier.
pub fn bare_relative_specifiers(specifier: &str, symbols: &Vec<String>) -> (r: Option<Vec<String>>)
    ensures
        match bare_relative_prefix(specifier@) {
            Some(p) => r matches Some(v) && strings_view(v@) == strings_view(symbols@).map_values(
                |s: Seq<char>| symbol_specifier(p, s),
            ),
            None => r is None,
        },
{
    let v = chars_of(specifier);
    let n = v.len();
    if n == 0 || v[n - 1] != '/' {
        proof {
            if n > 0 {
                assert(!ends_with(v@, "/"@)) by {
                    reveal_strlit("/");
                    assert(v@.subrange(n - 1, n as int)[0] == v@[n - 1]);
                }
            } else {
                reveal_strlit("/");
            }
        }
        return None;
    }
    proof {
        reveal_strlit("/");
        assert(v@.subrange(n - 1, n as int) =~= "/"@);
    }
    let trimmed = crate::text::trim_end_char_exec(v.as_slice(), '/');
    let mut i: usize = 0;
    while i < trimmed.len()
        invariant
            i <= trimmed@.len(),
            trimmed@ == trim_end_by(specifier@, is_char('/')),
            ends_with(specifier@, "/"@),
            forall|j: int| 0 <= j < i ==> trimmed@[j] == '.',
        decreases trimmed@.len() - i,
    {
        if trimmed[i] != '.' {
            assert(!all_dots(trimmed@));
            return None;
        }
        i = i + 1;
    }
    let prefix = crate::text::slice_chars(v.as_slice(), 0, n - 1);
    let slash = chars_of("/");
    let head = crate::text::concat(prefix.as_slice(), slash.as_slice());
    let mut out: Vec<String> = Vec::new();
    let mut k: usize = 0;
    while k < symbols.len()
        invariant
            k <= symbols@.len(),
            prefix@ == v@.take(n - 1),
            head@ == prefix@ + "/"@,
            strings_view(out@) == strings_view(symbols@).take(k as int).map_values(
                |s: Seq<char>| symbol_specifier(prefix@, s),
            ),
        decreases symbols@.len() - k,
    {
        let sv = chars_of(symbols[k].as_str());
        let full = crate::text::concat(head.as_slice(), sv.as_slice());
        let ghost before = strings_view(out@);
        out.push(string_of(full.as_slice()));
        assert(strings_view(out@) =~= before.push(symbol_specifier(prefix@, symbols@[k as int]@)));
        k = k + 1;
        assert(strings_view(symbols@).take(k as int) =~= strings_view(symbols@).take(k - 1).push(
            symbols@[k - 1]@,
        ));
        assert(strings_view(out@) =~= strings_view(symbols@).take(k as int).map_values(
            |s: Seq<char>| symbol_specifier(prefix@, s),
        ));
    }
    assert(strings_view(symbols@).take(symbols@.len() as int) =~= strings_view(symbols@));
    Some(out)
}

// ---------------------------------------------------------------------------
// Rust: inline tests and the crates that import tracing covers
// ---------------------------------------------------------------------------

/// A production file maps to itself when it is not a barrel or entry file
/// (it has a production stem) and its source holds a `#[cfg(test)]` module.
pub open spec fn self_mapped(prod: Seq<char>, source: Option<Seq<char>>) -> bool {
    &&& rs_production_stem(prod) is Some
    &&& source matches Some(src)
    &&& rust_syntax(src) matches Some(t)
    &&& has_inline_tests(t)
}

/// Layer 0: list each production file with inline tests as its own test
/// file; `sources[i]` is the text of `production_files[i]` (`None` when it
/// could not be read).
pub fn inline_test_self_map(
    test_lists: &mut Vec<Vec<String>>,
    production_files: &Vec<String>,
    sources: &Vec<Option<String>>,
)
    requires
        old(test_lists)@.len() == production_files@.len(),
        sources@.len() == production_files@.len(),
    ensures
        final(test_lists)@.len() == old(test_lists)@.len(),
        forall|i: int|
            0 <= i < production_files@.len() ==> strings_view(final(test_lists)@[i]@) == if self_mapped(
                production_files@[i]@,
                opt_string_view(sources@[i]),
            ) {
                push_new(strings_view(old(test_lists)@[i]@), production_files@[i]@)
            } else {
                strings_view(old(test_lists)@[i]@)
            },
{
    let ghost l0 = lists_view(test_lists@);
    let mut i: usize = 0;
    while i < production_files.len()
        invariant
            l0 == lists_view(old(test_lists)@),
            l0.len() == production_files@.len(),
            test_lists@.len() == production_files@.len(),
            sources@.len() == production_files@.len(),
            i <= production_files@.len(),
            forall|j: int|
                0 <= j < i ==> strings_view(test_lists@[j]@) == if self_mapped(
                    production_files@[j]@,
                    opt_string_view(sources@[j]),
                ) {
                    push_new(l0[j], production_files@[j]@)
                } else {
                    l0[j]
                },
            forall|j: int| i <= j < production_files@.len() ==> strings_view(test_lists@[j]@) == l0[j],
        decreases production_files@.len() - i,
    {
        let has_stem = crate::lang_rust::observe::production_stem(production_files[i].as_str()).is_some();
        let inline = match &sources[i] {
            Some(src) => has_stem && detect_inline_tests(src.as_str()),
            None => false,
        };
        if inline {
            let ghost prev = test_lists@;
            let mut l = test_lists.remove(i);
            push_new_exec(&mut l, production_files[i].clone());
            test_lists.insert(i, l);
            assert forall|j: int| 0 <= j < test_lists@.len() && j != i implies test_lists@[j]
                == prev[j] by {}
        }
        i = i + 1;
    }
    assert forall|j: int| 0 <= j < production_files@.len() implies strings_view(test_lists@[j]@)
        == if self_mapped(production_files@[j]@, opt_string_view(sources@[j])) {
        push_new(strings_view(old(test_lists)@[j]@), production_files@[j]@)
    } else {
        strings_view(old(test_lists)@[j]@)
    } by {
        assert(l0[j] == strings_view(old(test_lists)@[j]@));
    }
}

/// The crates that Rust import tracing runs for, each as its name, its
/// root and the member it stands for: the root crate when the root
/// manifest names a package; then every workspace member (which traces
/// only the tests under its root); with neither, the root under the name
/// `crate`.
pub open spec fn l2_targets(
    crate_name: Option<Seq<char>>,
    members: Seq<WorkspaceMember>,
    root: Seq<char>,
) -> Seq<(Seq<char>, Seq<char>, Option<int>)> {
    let first = match crate_name {
        Some(n) => seq![(n, root, None::<int>)],
        None => Seq::<(Seq<char>, Seq<char>, Option<int>)>::empty(),
    };
    if members.len() > 0 {
        first + Seq::new(
            members.len(),
            |k: int| (members[k].crate_name@, members[k].member_root@, Some(k)),
        )
    } else if crate_name is None {
        seq![("crate"@, root, None::<int>)]
    } else {
        first
    }
}

/// The view of a list of import-tracing targets.
pub open spec fn targets_view(v: Seq<(String, String, Option<usize>)>) -> Seq<
    (Seq<char>, Seq<char>, Option<int>),
> {
    v.map_values(
        |e: (String, String, Option<usize>)|
            (
                e.0@,
                e.1@,
                match e.2 {
                    Some(k) => Some(k as int),
                    None => None,
                },
            ),
    )
}

/// The crates that Rust import tracing runs for (see [`l2_targets`]).
pub fn import_tracing_targets(
    crate_name: Option<String>,
    members: &Vec<WorkspaceMember>,
    scan_root: &str,
) -> (r: Vec<(String, String, Option<usize>)>)
    ensures
        targets_view(r@) == l2_targets(opt_string_view(crate_name), members@, scan_root@),
{
    let ghost cn = opt_string_view(crate_name);
    let mut out: Vec<(String, String, Option<usize>)> = Vec::new();
    let none_name = crate_name.is_none();
    match crate_name {
        Some(n) => {
            out.push((n, String::from_str(scan_root), None));
        },
        None => {},
    }
    let ghost first = targets_view(out@);
    if members.len() > 0 {
        let mut k: usize = 0;
        while k < members.len()
            invariant
                k <= members@.len(),
                targets_view(out@) == first + Seq::new(
                    k as nat,
                    |q: int| (members@[q].crate_name@, members@[q].member_root@, Some(q)),
                ),
            decreases members@.len() - k,
        {
            let ghost before = targets_view(out@);
            out.push((members[k].crate_name.clone(), members[k].member_root.clone(), Some(k)));
            assert(targets_view(out@) =~= before.push(
                (members@[k as int].crate_name@, members@[k as int].member_root@, Some(k as int)),
            ));
            assert(targets_view(out@) =~= first + Seq::new(
                (k + 1) as nat,
                |q: int| (members@[q].crate_name@, members@[q].member_root@, Some(q)),
            ));
            k = k + 1;
        }
    } else if none_name {
        out.push((String::from_str("crate"), String::from_str(scan_root), None));
        assert(targets_view(out@) =~= seq![("crate"@, scan_root@, None::<int>)]);
    }
    out
}

/// The predicate "belongs to workspace member `k`": the owning member
/// ([`member_index_for_path`]) of the path is `k`.
pub open spec fn owned_by(members: Seq<WorkspaceMember>, k: int) -> spec_fn(Seq<char>) -> bool {
    |p: Seq<char>| best_member(p, member_roots(members), members.len() as int) == Some(k)
}

/// The tests among `tests` that belong to workspace member `k`.
pub open spec fn member_tests(tests: Seq<Seq<char>>, members: Seq<WorkspaceMember>, k: int) -> Seq<
    Seq<char>,
> {
    tests.filter(owned_by(members, k))
}

/// The test files that belong to workspace member `k`.
pub fn member_test_files(test_files: &Vec<String>, members: &Vec<WorkspaceMember>, k: usize) -> (r:
    Vec<String>)
    ensures
        strings_view(r@) == member_tests(strings_view(test_files@), members@, k as int),
{
    let ghost tv = strings_view(test_files@);
    let ghost f = owned_by(members@, k as int);
    let mut out: Vec<String> = Vec::new();
    let mut i: usize = 0;
    proof {
        reveal(Seq::filter);
    }
    assert(tv.take(0).filter(f) =~= Seq::<Seq<char>>::empty());
    let mlen = members.len();
    while i < test_files.len()
        invariant
            mlen == members@.len(),
            tv == strings_view(test_files@),
            f == owned_by(members@, k as int),
            i <= test_files@.len(),
            strings_view(out@) == tv.take(i as int).filter(f),
        decreases test_files@.len() - i,
    {
        let owner = member_index_for_path(test_files[i].as_str(), members.as_slice());
        let ghost before = strings_view(out@);
        assert(tv.take(i + 1).drop_last() =~= tv.take(i as int));
        assert(tv.take(i + 1).last() == test_files@[i as int]@);
        proof {
            let b = best_member(test_files@[i as int]@, member_roots(members@), members@.len() as int);
            assert(f(test_files@[i as int]@) == (b == Some(k as int)));
            match b {
                Some(q) => {
                    assert(0 <= q < members@.len());
                    assert(owner == Some(q as usize));
                    if owner == Some(k) {
                        assert(owner->0 == k);
                        assert(q as usize == k);
                        assert(q == k as int);
                    }
                    if q == k as int {
                        assert(owner == Some(k));
                    }
                },
                None => {
                    assert(owner is None);
                },
            }
            assert(f(test_files@[i as int]@) == (owner == Some(k)));
            assert(tv[i as int] == test_files@[i as int]@);
        }
        let ghost t1 = tv.take(i + 1);
        assert(t1.len() > 0);
        proof {
            reveal(Seq::filter);
        }
        assert(t1.filter(f) == if f(t1.last()) {
            t1.drop_last().filter(f).push(t1.last())
        } else {
            t1.drop_last().filter(f)
        });
        if owner == Some(k) {
            out.push(test_files[i].clone());
            assert(strings_view(out@) =~= before.push(tv[i as int]));
        } else {
            assert(strings_view(out@) =~= before);
        }
        i = i + 1;
    }
    assert(tv.take(test_files@.len() as int) =~= tv);
    out
}

/// The predicate "import tracing reads this test file": always, or with
/// `l1_exclusive` only when layer 1 did not match it.
pub open spec fn traced_by_layer2(l1_matched: Seq<Seq<char>>, l1_exclusive: bool) -> spec_fn(
    Seq<char>,
) -> bool {
    |t: Seq<char>| !(l1_exclusive && l1_matched.contains(t))
}

/// The test files, in order, that layer 2 (import tracing) reads: all of
/// them, or with `l1_exclusive` those that layer 1 did not match.
pub fn layer2_test_files(test_files: &Vec<String>, l1_matched: &Vec<String>, l1_exclusive: bool) -> (r:
    Vec<String>)
    ensures
        strings_view(r@) == strings_view(test_files@).filter(
            traced_by_layer2(strings_view(l1_matched@), l1_exclusive),
        ),
{
    let ghost tv = strings_view(test_files@);
    let ghost f = traced_by_layer2(strings_view(l1_matched@), l1_exclusive);
    let mut out: Vec<String> = Vec::new();
    let mut i: usize = 0;
    proof {
        reveal(Seq::filter);
    }
    assert(tv.take(0).filter(f) =~= Seq::<Seq<char>>::empty());
    while i < test_files.len()
        invariant
            tv == strings_view(test_files@),
            f == traced_by_layer2(strings_view(l1_matched@), l1_exclusive),
            i <= test_files@.len(),
            strings_view(out@) == tv.take(i as int).filter(f),
        decreases test_files@.len() - i,
    {
        let keep = !(l1_exclusive && contains_string(l1_matched, &test_files[i]));
        let ghost before = strings_view(out@);
        assert(tv.take(i + 1).drop_last() =~= tv.take(i as int));
        assert(tv[i as int] == test_files@[i as int]@);
        assert(tv.take(i + 1).last() == tv[i as int]);
        assert(f(tv[i as int]) == keep);
        let ghost t1 = tv.take(i + 1);
        proof {
            reveal(Seq::filter);
        }
        assert(t1.filter(f) == if f(t1.last()) {
            t1.drop_last().filter(f).push(t1.last())
        } else {
            t1.drop_last().filter(f)
        });
        if keep {
            out.push(test_files[i].clone());
            assert(strings_view(out@) =~= before.push(tv[i as int]));
        } else {
            assert(strings_view(out@) =~= before);
        }
        i = i + 1;
    }
    assert(tv.take(test_files@.len() as int) =~= tv);
    out
}

// ---------------------------------------------------------------------------
// Import tracing of one test file
// ---------------------------------------------------------------------------

/// What import tracing has gathered for one test file: the matched
/// production indices, the symbols behind each match, the indices matched
/// through a direct (non-barrel) import, and those matched only through a
/// Django `manage.py` root.
pub struct ImportTrace {
    pub all_matched: Vec<usize>,
    pub idx_to_symbols: Vec<(usize, Vec<String>)>,
    pub direct: Vec<usize>,
    pub manage_py_only: Vec<usize>,
}

/// The mathematical model of an [`ImportTrace`].
pub struct ImportTraceView {
    pub all: Seq<usize>,
    pub symbols: Seq<(usize, Seq<Seq<char>>)>,
    pub direct: Seq<usize>,
    pub manage_py_only: Seq<usize>,
}

impl View for ImportTrace {
    type V = ImportTraceView;

    open spec fn view(&self) -> ImportTraceView {
        ImportTraceView {
            all: self.all_matched@,
            symbols: sym_table_view(self.idx_to_symbols@),
            direct: self.direct@,
            manage_py_only: self.manage_py_only@,
        }
    }
}

/// `all` followed by the first `n` of `found`, each unless already there.
pub open spec fn merge_indices(all: Seq<usize>, found: Seq<usize>, n: int) -> Seq<usize>
    decreases n,
{
    if n <= 0 {
        all
    } else {
        let prev = merge_indices(all, found, n - 1);
        if prev.contains(found[n - 1]) {
            prev
        } else {
            prev.push(found[n - 1])
        }
    }
}

/// The trace after an import whose resolved file gave the production
/// indices `found`: they join the matches; the newly matched indices are
/// credited with `syms`, and, for a direct import, noted as direct (and as
/// matched only through the `manage.py` root when `via_manage_py`).
pub open spec fn traced(
    t: ImportTraceView,
    found: Seq<usize>,
    syms: Seq<Seq<char>>,
    is_barrel: bool,
    via_manage_py: bool,
) -> ImportTraceView {
    let all = merge_indices(t.all, found, found.len() as int);
    let added = all.skip(t.all.len() as int);
    ImportTraceView {
        all,
        symbols: track_upto(t.symbols, all, t.all, syms, all.len() as int),
        direct: if is_barrel {
            t.direct
        } else {
            t.direct + added
        },
        manage_py_only: if !is_barrel && via_manage_py {
            t.manage_py_only + added
        } else {
            t.manage_py_only
        },
    }
}

proof fn lemma_merge_prefix(all: Seq<usize>, found: Seq<usize>, n: int)
    ensures
        merge_indices(all, found, n).len() >= all.len(),
        merge_indices(all, found, n).take(all.len() as int) == all,
    decreases n,
{
    if n > 0 {
        lemma_merge_prefix(all, found, n - 1);
        let prev = merge_indices(all, found, n - 1);
        if !prev.contains(found[n - 1]) {
            assert(prev.push(found[n - 1]).take(all.len() as int) =~= prev.take(all.len() as int));
        }
    }
}

impl ImportTrace {
    /// An empty trace.
    pub fn new() -> (r: Self)
        ensures
            r@.all.len() == 0,
            r@.symbols.len() == 0,
            r@.direct.len() == 0,
            r@.manage_py_only.len() == 0,
    {
        ImportTrace {
            all_matched: Vec::new(),
            idx_to_symbols: Vec::new(),
            direct: Vec::new(),
            manage_py_only: Vec::new(),
        }
    }

    /// Record one resolved import of the test file: when the import
    /// resolves to a barrel file and layer 1 already matched the test, it
    /// is skipped; otherwise the production indices `found` that its file
    /// gives are recorded (see [`traced`]).
    pub fn record_import(
        &mut self,
        found: &Vec<usize>,
        symbols: &Vec<String>,
        is_barrel: bool,
        l1_matched: bool,
        via_manage_py: bool,
    )
        ensures
            final(self)@ == if is_barrel && l1_matched {
                old(self)@
            } else {
                traced(old(self)@, found@, strings_view(symbols@), is_barrel, via_manage_py)
            },
    {
        if is_barrel && l1_matched {
            return;
        }
        let ghost t0 = self@;
        let before = clone_indices(&self.all_matched);
        let n0 = self.all_matched.len();
        let mut x: usize = 0;
        while x < found.len()
            invariant
                before@ == t0.all,
                n0 == t0.all.len(),
                x <= found@.len(),
                self.all_matched@ == merge_indices(t0.all, found@, x as int),
                sym_table_view(self.idx_to_symbols@) == t0.symbols,
                self.direct@ == t0.direct,
                self.manage_py_only@ == t0.manage_py_only,
            decreases found@.len() - x,
        {
            let k = found[x];
            if !contains_index(&self.all_matched, k) {
                self.all_matched.push(k);
            }
            x = x + 1;
        }
        let ghost all = self.all_matched@;
        proof {
            lemma_merge_prefix(t0.all, found@, found@.len() as int);
        }
        track_new_matches(&self.all_matched, &before, symbols, &mut self.idx_to_symbols);
        let ghost table = sym_table_view(self.idx_to_symbols@);
        if !is_barrel {
            let mut y: usize = n0;
            while y < self.all_matched.len()
                invariant
                    self.all_matched@ == all,
                    sym_table_view(self.idx_to_symbols@) == table,
                    n0 <= y <= all.len(),
                    self.direct@ == t0.direct + all.subrange(n0 as int, y as int),
                    self.manage_py_only@ == if via_manage_py {
                        t0.manage_py_only + all.subrange(n0 as int, y as int)
                    } else {
                        t0.manage_py_only
                    },
                decreases all.len() - y,
            {
                let k = self.all_matched[y];
                self.direct.push(k);
                if via_manage_py {
                    self.manage_py_only.push(k);
                }
                proof {
                    assert(all.subrange(n0 as int, y + 1) =~= all.subrange(n0 as int, y as int).push(k));
                }
                y = y + 1;
            }
            assert(all.subrange(n0 as int, all.len() as int) =~= all.skip(n0 as int));
        }
        let ghost r = traced(t0, found@, strings_view(symbols@), is_barrel, via_manage_py);
        assert(self@.all == r.all);
        assert(self@.symbols == r.symbols);
        assert(self@.direct == r.direct);
        assert(self@.manage_py_only == r.manage_py_only);
    }
}

fn clone_indices(v: &Vec<usize>) -> (r: Vec<usize>)
    ensures
        r@ == v@,
{
    let mut out: Vec<usize> = Vec::new();
    let mut i: usize = 0;
    while i < v.len()
        invariant
            i <= v@.len(),
            out@ == v@.take(i as int),
        decreases v@.len() - i,
    {
        out.push(v[i]);
        i = i + 1;
        assert(out@ =~= v@.take(i as int));
    }
    assert(v@.take(v@.len() as int) =~= v@);
    out
}

/// List `test` for each production file in `indices`, each time unless
/// already listed.
pub fn list_test_for(lists: &mut Vec<Vec<String>>, indices: &Vec<usize>, test: &String)
    requires
        forall|k: int| 0 <= k < indices@.len() ==> #[trigger] indices@[k] < old(lists)@.len(),
    ensures
        final(lists)@.len() == old(lists)@.len(),
        forall|i: int|
            0 <= i < old(lists)@.len() ==> #[trigger] strings_view(final(lists)@[i]@) == if indices@.contains(
                i as usize,
            ) {
                push_new(strings_view(old(lists)@[i]@), test@)
            } else {
                strings_view(old(lists)@[i]@)
            },
{
    let ghost l0 = lists@;
    let mut x: usize = 0;
    while x < indices.len()
        invariant
            forall|k: int| 0 <= k < indices@.len() ==> #[trigger] indices@[k] < l0.len(),
            lists@.len() == l0.len(),
            x <= indices@.len(),
            forall|i: int|
                0 <= i < l0.len() ==> #[trigger] strings_view(lists@[i]@) == if indices@.take(
                    x as int,
                ).contains(i as usize) {
                    push_new(strings_view(l0[i]@), test@)
                } else {
                    strings_view(l0[i]@)
                },
        decreases indices@.len() - x,
    {
        let k = indices[x];
        let ghost prev = lists@;
        let mut l = lists.remove(k);
        push_new_exec(&mut l, test.clone());
        lists.insert(k, l);
        let lcount = lists.len();
        assert forall|i: int| 0 <= i < l0.len() implies #[trigger] strings_view(lists@[i]@) == if indices@.take(
            x + 1,
        ).contains(i as usize) {
            push_new(strings_view(l0[i]@), test@)
        } else {
            strings_view(l0[i]@)
        } by {
            assert(indices@.take(x + 1) =~= indices@.take(x as int).push(k));
            if i == k as int {
                assert(indices@.take(x + 1)[x as int] == k);
                assert(indices@.take(x + 1).contains(i as usize));
                let p = strings_view(prev[i]@);
                assert(p.contains(test@) ==> push_new(p, test@) == p);
                if indices@.take(x as int).contains(i as usize) {
                    let q = strings_view(l0[i]@);
                    if !q.contains(test@) {
                        assert(q.push(test@)[q.len() as int] == test@);
                    }
                    assert(push_new(q, test@).contains(test@));
                } else {
                    assert(p == strings_view(l0[i]@));
                }
            } else {
                assert(lists@[i] == prev[i]);
                assert(i < lcount);
                let v = i as usize;
                assert(v as int == i);
                assert(v != k);
                if indices@.take(x + 1).contains(v) {
                    let j = choose|j: int| 0 <= j < x + 1 && #[trigger] indices@.take(x + 1)[j] == v;
                    assert(j < x);
                    assert(indices@.take(x as int)[j] == v);
                }
                if indices@.take(x as int).contains(v) {
                    let j = choose|j: int| 0 <= j < x && #[trigger] indices@.take(x as int)[j] == v;
                    assert(indices@.take(x + 1)[j] == v);
                }
            }
        }
        x = x + 1;
    }
    assert(indices@.take(indices@.len() as int) =~= indices@);
}

// ---------------------------------------------------------------------------
// Laws
// ---------------------------------------------------------------------------

/// The assertion filter only keeps matches, keeps all of them when no
/// assertion names anything, and never empties a test's matches (the safe
/// fallback).
pub proof fn law_assertion_filter(
    all: Seq<usize>,
    m: Seq<(usize, Seq<Seq<char>>)>,
    asserted: Seq<Seq<char>>,
    direct: Seq<usize>,
)
    ensures
        final_matches(all, m, asserted, direct).subset_of(all.to_set()),
        asserted.len() == 0 ==> final_matches(all, m, asserted, direct) == all.to_set(),
        all.len() > 0 ==> exists|k: usize| final_matches(all, m, asserted, direct).contains(k),
{
    if all.len() > 0 {
        let f = final_matches(all, m, asserted, direct);
        if asserted.len() == 0 || !(exists|k: usize| all.contains(k) && asserted_hit(m, asserted, k)) {
            assert(all.contains(all[0]));
            assert(f.contains(all[0]));
        } else {
            let k = choose|k: usize| all.contains(k) && asserted_hit(m, asserted, k);
            assert(f.contains(k));
        }
    }
}

proof fn lemma_push_all_new(existing: Seq<Seq<char>>, syms: Seq<Seq<char>>, n: int)
    requires
        0 <= n <= syms.len(),
    ensures
        forall|x: Seq<char>| existing.contains(x) ==> push_all_new(existing, syms, n).contains(x),
        forall|j: int| 0 <= j < n ==> push_all_new(existing, syms, n).contains(#[trigger] syms[j]),
    decreases n,
{
    if n > 0 {
        lemma_push_all_new(existing, syms, n - 1);
        let prev = push_all_new(existing, syms, n - 1);
        let cur = push_all_new(existing, syms, n);
        assert forall|x: Seq<char>| prev.contains(x) implies cur.contains(x) by {
            if !prev.contains(syms[n - 1]) {
                let i = choose|i: int| 0 <= i < prev.len() && prev[i] == x;
                assert(cur[i] == x);
            }
        }
        assert(cur.contains(syms[n - 1])) by {
            if !prev.contains(syms[n - 1]) {
                assert(cur[prev.len() as int] == syms[n - 1]);
            }
        }
    }
}

proof fn lemma_add_symbols(m: Seq<(usize, Seq<Seq<char>>)>, k: usize, syms: Seq<Seq<char>>, q: usize)
    ensures
        forall|x: Seq<char>|
            symbols_for(m, q).contains(x) ==> symbols_for(add_symbols(m, k, syms), q).contains(x),
        q == k ==> forall|j: int|
            0 <= j < syms.len() ==> symbols_for(add_symbols(m, k, syms), q).contains(
                #[trigger] syms[j],
            ),
{
    lemma_find_key(m, k);
    lemma_find_key(m, q);
    let out = add_symbols(m, k, syms);
    lemma_find_key(out, q);
    match find_key(m, k) {
        Some(i) => {
            lemma_push_all_new(m[i].1, syms, syms.len() as int);
            lemma_find_key_same_keys(m, out, q);
        },
        None => {
            lemma_push_all_new(Seq::<Seq<char>>::empty(), syms, syms.len() as int);
            lemma_find_key_push(m, (k, push_all_new(Seq::<Seq<char>>::empty(), syms, syms.len() as int)), q);
        },
    }
}

proof fn lemma_find_key_same_keys<V>(m: Seq<(usize, V)>, m2: Seq<(usize, V)>, q: usize)
    requires
        m.len() == m2.len(),
        forall|i: int| 0 <= i < m.len() ==> m[i].0 == m2[i].0,
    ensures
        find_key(m, q) == find_key(m2, q),
    decreases m.len(),
{
    if m.len() > 0 {
        lemma_find_key_same_keys(m.drop_last(), m2.drop_last(), q);
    }
}

proof fn lemma_find_key_push<V>(m: Seq<(usize, V)>, e: (usize, V), q: usize)
    ensures
        find_key(m.push(e), q) == if e.0 == q {
            Some(m.len() as int)
        } else {
            find_key(m, q)
        },
{
    assert(m.push(e).drop_last() =~= m);
}

proof fn lemma_track_upto(
    m: Seq<(usize, Seq<Seq<char>>)>,
    all: Seq<usize>,
    before: Seq<usize>,
    syms: Seq<Seq<char>>,
    n: int,
    q: usize,
)
    requires
        0 <= n <= all.len(),
    ensures
        forall|x: Seq<char>|
            symbols_for(m, q).contains(x) ==> symbols_for(
                track_upto(m, all, before, syms, n),
                q,
            ).contains(x),
        (exists|j: int| 0 <= j < n && all[j] == q) && !before.contains(q) ==> forall|s: int|
            0 <= s < syms.len() ==> symbols_for(track_upto(m, all, before, syms, n), q).contains(
                #[trigger] syms[s],
            ),
    decreases n,
{
    if n > 0 {
        lemma_track_upto(m, all, before, syms, n - 1, q);
        let prev = track_upto(m, all, before, syms, n - 1);
        if !before.contains(all[n - 1]) {
            lemma_add_symbols(prev, all[n - 1], syms, q);
        }
        if (exists|j: int| 0 <= j < n && all[j] == q) && !before.contains(q) {
            let j = choose|j: int| 0 <= j < n && all[j] == q;
            if j < n - 1 {
                assert(exists|j2: int| 0 <= j2 < n - 1 && all[j2] == q);
            }
        }
    }
}

/// After recording new matches, each newly matched index lists every
/// symbol of the import that matched it, and no index loses a symbol.
pub proof fn law_track_new_matches(
    m: Seq<(usize, Seq<Seq<char>>)>,
    all: Seq<usize>,
    before: Seq<usize>,
    syms: Seq<Seq<char>>,
    q: usize,
)
    ensures
        forall|x: Seq<char>|
            symbols_for(m, q).contains(x) ==> symbols_for(
                track_upto(m, all, before, syms, all.len() as int),
                q,
            ).contains(x),
        all.contains(q) && !before.contains(q) ==> forall|s: int|
            0 <= s < syms.len() ==> symbols_for(
                track_upto(m, all, before, syms, all.len() as int),
                q,
            ).contains(#[trigger] syms[s]),
{
    lemma_track_upto(m, all, before, syms, all.len() as int, q);
}

/// The lists after the fallback keep every earlier entry: each old list is
/// a prefix of the new one.
pub proof fn law_stem_fallback_only_adds(
    core: Seq<Seq<Seq<char>>>,
    prods: Seq<Seq<char>>,
    tests: Seq<Seq<char>>,
    n: int,
)
    requires
        core.len() == prods.len(),
        0 <= n <= tests.len(),
    ensures
        stem_fallback_upto(core, prods, tests, n).len() == core.len(),
        forall|i: int|
            0 <= i < core.len() ==> core[i].is_prefix_of(
                #[trigger] stem_fallback_upto(core, prods, tests, n)[i],
            ),
    decreases n,
{
    if n > 0 {
        law_stem_fallback_only_adds(core, prods, tests, n - 1);
        let prev = stem_fallback_upto(core, prods, tests, n - 1);
        let t = tests[n - 1];
        if !listed(core, t) {
            if let Some(i) = stem_fallback_target(prods, t) {
                lemma_stem_hits(prods, py_test_stem(t)->0, prods.len() as int);
                let cur = stem_fallback_upto(core, prods, tests, n);
                assert forall|a: int| 0 <= a < core.len() implies core[a].is_prefix_of(
                    #[trigger] cur[a],
                ) by {
                    if a == i {
                        assert(prev[a].is_prefix_of(push_new(prev[a], t)));
                    }
                }
            }
        }
    }
}

proof fn lemma_stem_hits(prods: Seq<Seq<char>>, s: Seq<char>, n: int)
    requires
        0 <= n <= prods.len(),
    ensures
        forall|k: int| 0 <= k < stem_hits(prods, s, n).len() ==> 0 <= #[trigger] stem_hits(
            prods,
            s,
            n,
        )[k] < n,
    decreases n,
{
    if n > 0 {
        lemma_stem_hits(prods, s, n - 1);
        let prev = stem_hits(prods, s, n - 1);
        let cur = stem_hits(prods, s, n);
        assert forall|k: int| 0 <= k < cur.len() implies 0 <= #[trigger] cur[k] < n by {
            if k < prev.len() {
                assert(cur[k] == prev[k]);
            }
        }
    }
}


/// A trace lists each match once, notes as direct only matched indices,
/// and as matched through the `manage.py` root only direct ones.
pub open spec fn trace_well_formed(t: ImportTraceView) -> bool {
    &&& t.all.no_duplicates()
    &&& forall|k: usize| #[trigger] t.direct.contains(k) ==> t.all.contains(k)
    &&& forall|k: usize| #[trigger] t.manage_py_only.contains(k) ==> t.direct.contains(k)
}

proof fn lemma_merge_indices(all: Seq<usize>, found: Seq<usize>, n: int)
    requires
        all.no_duplicates(),
        0 <= n <= found.len(),
    ensures
        merge_indices(all, found, n).no_duplicates(),
        forall|k: usize|
            #[trigger] merge_indices(all, found, n).contains(k) <==> (all.contains(k)
                || found.take(n).contains(k)),
    decreases n,
{
    if n > 0 {
        lemma_merge_indices(all, found, n - 1);
        let prev = merge_indices(all, found, n - 1);
        let f = found[n - 1];
        assert(found.take(n) =~= found.take(n - 1).push(f));
        assert forall|k: usize| found.take(n).contains(k) <==> (found.take(n - 1).contains(k)
            || k == f) by {
            if found.take(n).contains(k) {
                let j = choose|j: int| 0 <= j < n && #[trigger] found.take(n)[j] == k;
                if j < n - 1 {
                    assert(found.take(n - 1)[j] == k);
                }
            }
            if found.take(n - 1).contains(k) {
                let j = choose|j: int| 0 <= j < n - 1 && #[trigger] found.take(n - 1)[j] == k;
                assert(found.take(n)[j] == k);
            }
            if k == f {
                assert(found.take(n)[n - 1] == k);
            }
        }
        if !prev.contains(f) {
            let cur = prev.push(f);
            assert(cur[prev.len() as int] == f);
            assert forall|k: usize| #[trigger] cur.contains(k) <==> (prev.contains(k) || k == f) by {
                if cur.contains(k) {
                    let j = choose|j: int| 0 <= j < cur.len() && cur[j] == k;
                    if j < prev.len() {
                        assert(prev[j] == k);
                    }
                }
                if prev.contains(k) {
                    let j = choose|j: int| 0 <= j < prev.len() && prev[j] == k;
                    assert(cur[j] == k);
                }
            }
        }
    }
}

/// Recording an import keeps a trace well formed.
pub proof fn law_record_import_keeps_trace(
    t: ImportTraceView,
    found: Seq<usize>,
    syms: Seq<Seq<char>>,
    is_barrel: bool,
    via_manage_py: bool,
)
    requires
        trace_well_formed(t),
    ensures
        trace_well_formed(traced(t, found, syms, is_barrel, via_manage_py)),
{
    let r = traced(t, found, syms, is_barrel, via_manage_py);
    let all = r.all;
    lemma_merge_indices(t.all, found, found.len() as int);
    lemma_merge_prefix(t.all, found, found.len() as int);
    let added = all.skip(t.all.len() as int);
    assert forall|k: usize| #[trigger] added.contains(k) implies all.contains(k) by {
        let j = choose|j: int| 0 <= j < added.len() && added[j] == k;
        assert(all[t.all.len() + j] == k);
    }
    assert forall|k: usize| #[trigger] t.all.contains(k) implies all.contains(k) by {
        let j = choose|j: int| 0 <= j < t.all.len() && t.all[j] == k;
        assert(all.take(t.all.len() as int)[j] == k);
        assert(all[j] == k);
    }
    assert forall|k: usize| #[trigger] r.direct.contains(k) implies all.contains(k) by {
        if !is_barrel && !t.direct.contains(k) {
            let j = choose|j: int| 0 <= j < r.direct.len() && r.direct[j] == k;
            assert(added[j - t.direct.len()] == k);
        }
    }
    assert forall|k: usize| #[trigger] r.manage_py_only.contains(k) implies r.direct.contains(k) by {
        if !is_barrel && via_manage_py && !t.manage_py_only.contains(k) {
            let j = choose|j: int| 0 <= j < r.manage_py_only.len() && r.manage_py_only[j] == k;
            let a = j - t.manage_py_only.len();
            assert(added[a] == k);
            assert(r.direct[t.direct.len() + a] == k);
        } else if !is_barrel {
            let j = choose|j: int| 0 <= j < t.direct.len() && t.direct[j] == k;
            assert(r.direct[j] == k);
        }
    }
}

} // verus!
