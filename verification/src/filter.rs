//! The filter engine: from a list of entries and a search text to the
//! ordered list of indices whose entries match.
//!
//! A search text is lowercased and split on commas into trimmed terms; an
//! entry matches when its lowercased name contains every term. Matching
//! entries are ordered by name (as stored, code-point order), with entries
//! of equal name kept in their original relative order — a stable sort,
//! expressed here as a strict order on (name, position) pairs.

use vstd::prelude::*;

verus! {

use vstd::relations::{sorted_by, total_ordering};
use vstd::seq_lib::lemma_sorted_unique;
use crate::text::{
    lex_lt,
    lower_of,
    is_substring,
    trim_spec,
    split_commas,
    lemma_lex_lt_irreflexive,
    lemma_lex_lt_asymmetric,
    lemma_lex_lt_connected,
    lemma_lex_lt_transitive,
    lowercase,
    split_commas_str,
    trim_str,
    str_contains_sub,
    str_lex_lt,
};

/// One selectable item: an opaque key and a human-readable name. Names need
/// not be unique; keys identify entries to the caller.
#[derive(Debug, Clone)]
pub struct ListEntry {
    pub key: String,
    pub name: String,
}

// ----- what a search text means -----

/// The terms of an already-lowercased search text: split on commas, each
/// piece trimmed. Empty pieces are kept (an empty term matches everything).
pub open spec fn terms_of(s: Seq<char>) -> Seq<Seq<char>> {
    split_commas(s).map_values(|t: Seq<char>| trim_spec(t))
}

/// The terms a raw search text produces: lowercase it, then split and trim.
pub open spec fn search_terms(search: Seq<char>) -> Seq<Seq<char>> {
    terms_of(lower_of(search))
}

/// A name matches when its lowercased form contains every term.
pub open spec fn entry_matches(name: Seq<char>, terms: Seq<Seq<char>>) -> bool {
    forall|k: int| 0 <= k < terms.len() ==> is_substring(#[trigger] terms[k], lower_of(name))
}

/// Lowercase, split and trim a search text.
pub fn split_search_terms(search: &str) -> (terms: Vec<String>)
    ensures
        terms@.map_values(|t: String| t@) == search_terms(search@),
{
    let lowered = lowercase(search);
    let pieces = split_commas_str(lowered.as_str());
    let mut out: Vec<String> = Vec::new();
    let mut k: usize = 0;
    while k < pieces.len()
        invariant
            pieces@.map_values(|t: String| t@) == split_commas(lower_of(search@)),
            k <= pieces@.len(),
            out@.len() == k,
            forall|j: int|
                0 <= j < k ==> #[trigger] out@[j]@ == trim_spec(pieces@.map_values(|t: String| t@)[j]),
        decreases pieces@.len() - k,
    {
        let t = trim_str(pieces[k].as_str());
        proof {
            assert(pieces@.map_values(|t: String| t@)[k as int] == pieces@[k as int]@);
        }
        out.push(t);
        k = k + 1;
    }
    proof {
        assert(out@.map_values(|t: String| t@) =~= search_terms(search@));
    }
    out
}

/// Does this name match every term? This is the per-entry test of the
/// filter engine.
pub fn search_filter(name: &str, terms: &Vec<String>) -> (r: bool)
    ensures
        r == entry_matches(name@, terms@.map_values(|t: String| t@)),
{
    let ghost tseq = terms@.map_values(|t: String| t@);
    let lowered = lowercase(name);
    let mut k: usize = 0;
    while k < terms.len()
        invariant
            tseq == terms@.map_values(|t: String| t@),
            lowered@ == lower_of(name@),
            k <= terms@.len(),
            forall|j: int| 0 <= j < k ==> is_substring(#[trigger] tseq[j], lower_of(name@)),
        decreases terms@.len() - k,
    {
        proof {
            assert(tseq[k as int] == terms@[k as int]@);
        }
        if !str_contains_sub(lowered.as_str(), terms[k].as_str()) {
            return false;
        }
        k = k + 1;
    }
    true
}

// ----- the order of the displayed list -----

/// Order on indices into an entry list: by name in `lex_lt` order, with
/// ties broken by position. Sorting by it is exactly a stable sort by name.
pub open spec fn idx_le(items: Seq<ListEntry>, a: usize, b: usize) -> bool {
    lex_lt(items[a as int].name@, items[b as int].name@) || (items[a as int].name@
        == items[b as int].name@ && a <= b)
}

/// The same order as a binary relation, for `sort_by`.
pub open spec fn idx_order(items: Seq<ListEntry>) -> spec_fn(usize, usize) -> bool {
    |a: usize, b: usize| idx_le(items, a, b)
}

pub proof fn lemma_idx_order_total(items: Seq<ListEntry>)
    ensures
        total_ordering(idx_order(items)),
{
    let leq = idx_order(items);
    assert forall|a: usize| #[trigger] leq(a, a) by {}
    assert forall|a: usize, b: usize, c: usize| #[trigger] leq(a, b) && #[trigger] leq(b, c)
        implies leq(a, c) by {
        let na = items[a as int].name@;
        let nb = items[b as int].name@;
        let nc = items[c as int].name@;
        lemma_lex_lt_transitive(na, nb, nc);
    }
    assert forall|a: usize, b: usize| #[trigger] leq(a, b) && #[trigger] leq(b, a)
        implies a == b by {
        let na = items[a as int].name@;
        let nb = items[b as int].name@;
        lemma_lex_lt_asymmetric(na, nb);
        lemma_lex_lt_irreflexive(na);
        lemma_lex_lt_irreflexive(nb);
    }
    assert forall|a: usize, b: usize| #[trigger] leq(a, b) || #[trigger] leq(b, a) by {
        let na = items[a as int].name@;
        let nb = items[b as int].name@;
        lemma_lex_lt_connected(na, nb);
    }
}

/// Executable form of `idx_le`.
fn idx_le_exec(items: &Vec<ListEntry>, a: usize, b: usize) -> (r: bool)
    requires
        a < items@.len(),
        b < items@.len(),
    ensures
        r == idx_le(items@, a, b),
{
    let lt = str_lex_lt(items[a].name.as_str(), items[b].name.as_str());
    if lt {
        true
    } else {
        let gt = str_lex_lt(items[b].name.as_str(), items[a].name.as_str());
        if gt {
            false
        } else {
            proof {
                lemma_lex_lt_connected(items@[a as int].name@, items@[b as int].name@);
            }
            a <= b
        }
    }
}

// ----- the filter pipeline -----

/// The indices of the matching entries, in position order.
pub open spec fn matching_indices(items: Seq<ListEntry>, terms: Seq<Seq<char>>) -> Seq<usize> {
    Seq::new(items.len(), |i: int| i as usize).filter(
        |ix: usize| entry_matches(items[ix as int].name@, terms),
    )
}

/// The displayed order: the matching indices, stably sorted by entry name.
pub open spec fn filter_ordered(items: Seq<ListEntry>, terms: Seq<Seq<char>>) -> Seq<usize> {
    matching_indices(items, terms).sort_by(idx_order(items))
}

/// Insert `x` into a list of indices kept sorted by `idx_le`.
fn insert_in_order(items: &Vec<ListEntry>, r: &mut Vec<usize>, x: usize)
    requires
        sorted_by(old(r)@, idx_order(items@)),
        x < items@.len(),
        forall|j: int| 0 <= j < old(r)@.len() ==> old(r)@[j] < items@.len(),
    ensures
        sorted_by(final(r)@, idx_order(items@)),
        final(r)@.to_multiset() == old(r)@.to_multiset().insert(x),
        forall|j: int| 0 <= j < final(r)@.len() ==> final(r)@[j] < items@.len(),
{
    proof {
        lemma_idx_order_total(items@);
    }
    let ghost leq = idx_order(items@);
    let mut pos: usize = 0;
    while pos < r.len() && !idx_le_exec(items, x, r[pos])
        invariant
            pos <= r@.len(),
            x < items@.len(),
            forall|j: int| 0 <= j < r@.len() ==> r@[j] < items@.len(),
            sorted_by(r@, idx_order(items@)),
            total_ordering(idx_order(items@)),
            forall|j: int| 0 <= j < pos ==> #[trigger] idx_le(items@, r@[j], x),
        decreases r@.len() - pos,
    {
        proof {
            let leqf = idx_order(items@);
            assert(leqf(x, r@[pos as int]) || leqf(r@[pos as int], x));
            assert(leqf(x, r@[pos as int]) == idx_le(items@, x, r@[pos as int]));
            assert(leqf(r@[pos as int], x) == idx_le(items@, r@[pos as int], x));
        }
        pos = pos + 1;
    }
    let ghost oldr = r@;
    r.insert(pos, x);
    proof {
        broadcast use vstd::seq_lib::group_to_multiset_ensures;

        assert(r@ == oldr.insert(pos as int, x));
        oldr.insert_ensures(pos as int, x);
        let leqf = idx_order(items@);
        if pos < oldr.len() {
            assert(idx_le(items@, x, oldr[pos as int]));
        }
        assert forall|i: int, j: int| 0 <= i < j < r@.len() implies leqf(r@[i], r@[j]) by {
            if j < pos {
                assert(leqf(oldr[i], oldr[j]));
            } else if i < pos && j == pos {
                assert(idx_le(items@, oldr[i], x));
            } else if i < pos && j > pos {
                assert(leqf(oldr[i], oldr[j - 1]));
            } else if i == pos && j > pos {
                assert(leqf(x, oldr[pos as int]));
                if pos < j - 1 {
                    assert(leqf(oldr[pos as int], oldr[j - 1]));
                    assert(leqf(x, oldr[j - 1]));
                } else {
                    assert(r@[j] == oldr[pos as int]);
                }
                assert(leqf(r@[i], r@[j]));
            } else {
                assert(leqf(oldr[i - 1], oldr[j - 1]));
            }
        }
        assert(sorted_by(r@, leqf));
    }
}

/// The filter engine. Returns the indices of the matching entries, sorted
/// ascending by name and, among equal names, by original position.
///
/// The postconditions state the three facts the session relies on: the
/// result is exactly `filter_ordered` (so recomputation is deterministic);
/// every returned index is in range and its entry matches every term; and
/// every matching index appears. Sortedness and distinctness make the
/// order unique.
pub fn filter_entries(items: &Vec<ListEntry>, search: &str) -> (r: Vec<usize>)
    ensures
        r@ == filter_ordered(items@, search_terms(search@)),
        sorted_by(r@, idx_order(items@)),
        r@.no_duplicates(),
        forall|j: int|
            0 <= j < r@.len() ==> r@[j] < items@.len() && entry_matches(
                items@[r@[j] as int].name@,
                search_terms(search@),
            ),
        forall|i: usize|
            i < items@.len() && entry_matches(items@[i as int].name@, search_terms(search@))
                ==> r@.contains(i),
{
    let terms = split_search_terms(search);
    let ghost tseq = search_terms(search@);
    let ghost pred = |ix: usize| entry_matches(items@[ix as int].name@, tseq);
    let mut m: Vec<usize> = Vec::new();
    let mut i: usize = 0;
    while i < items.len()
        invariant
            tseq == terms@.map_values(|t: String| t@),
            pred == (|ix: usize| entry_matches(items@[ix as int].name@, tseq)),
            i <= items@.len(),
            m@ == Seq::new(i as nat, |t: int| t as usize).filter(pred),
            forall|j: int| 0 <= j < m@.len() ==> m@[j] < items@.len(),
        decreases items@.len() - i,
    {
        let matched = search_filter(items[i].name.as_str(), &terms);
        proof {
            reveal(Seq::filter);
            let sold = Seq::new(i as nat, |t: int| t as usize);
            let snew = Seq::new((i + 1) as nat, |t: int| t as usize);
            assert(snew.drop_last() =~= sold);
            assert(snew.last() == i as usize);
            assert(snew.filter(pred) == if pred(i as usize) {
                sold.filter(pred).push(i as usize)
            } else {
                sold.filter(pred)
            });
        }
        if matched {
            m.push(i);
        }
        i = i + 1;
    }
    proof {
        assert(Seq::new(items@.len(), |t: int| t as usize) =~= Seq::new(
            i as nat,
            |t: int| t as usize,
        ));
        assert(m@ == matching_indices(items@, tseq));
    }
    let mut r: Vec<usize> = Vec::new();
    let mut k: usize = 0;
    proof {
        broadcast use vstd::seq_lib::group_to_multiset_ensures;

        lemma_idx_order_total(items@);
        assert(m@.take(0).to_multiset() =~= r@.to_multiset());
    }
    while k < m.len()
        invariant
            total_ordering(idx_order(items@)),
            k <= m@.len(),
            forall|j: int| 0 <= j < m@.len() ==> m@[j] < items@.len(),
            forall|j: int| 0 <= j < r@.len() ==> r@[j] < items@.len(),
            sorted_by(r@, idx_order(items@)),
            r@.to_multiset() == m@.take(k as int).to_multiset(),
        decreases m@.len() - k,
    {
        proof {
            broadcast use vstd::seq_lib::group_to_multiset_ensures;

            assert(m@.take(k + 1).drop_last() =~= m@.take(k as int));
            assert(m@.take(k + 1).last() == m@[k as int]);
            assert(m@.take(k + 1) == m@.take(k as int).push(m@[k as int]));
        }
        insert_in_order(items, &mut r, m[k]);
        k = k + 1;
    }
    proof {
        broadcast use vstd::seq_lib::group_to_multiset_ensures;

        assert(m@.take(m@.len() as int) =~= m@);
        m@.lemma_sort_by_ensures(idx_order(items@));
        lemma_sorted_unique(r@, m@.sort_by(idx_order(items@)), idx_order(items@));
        assert(r@ =~= filter_ordered(items@, tseq));
        let base = Seq::new(items@.len(), |t: int| t as usize);
        assert(base.no_duplicates()) by {
            assert forall|x: int, y: int|
                0 <= x < base.len() && 0 <= y < base.len() && x != y implies base[x] != base[y] by {
                assert(base[x] == x as usize);
                assert(base[y] == y as usize);
            }
        }
        assert forall|j: int| 0 <= j < r@.len() implies r@[j] < items@.len() && entry_matches(
            items@[r@[j] as int].name@,
            tseq,
        ) by {
            assert(r@.to_multiset().contains(r@[j]));
            assert(m@.contains(r@[j]));
            let jm = choose|jm: int| 0 <= jm < m@.len() && m@[jm] == r@[j];
            base.lemma_filter_pred(pred, jm);
        }
        assert forall|ix: usize|
            ix < items@.len() && entry_matches(items@[ix as int].name@, tseq) implies r@.contains(
            ix,
        ) by {
            assert(base[ix as int] == ix);
            base.lemma_filter_contains(pred, ix as int);
            assert(m@.contains(ix));
            assert(m@.to_multiset().contains(ix));
        }
        lemma_filter_keeps_no_dup(base, pred);
        m@.lemma_multiset_has_no_duplicates();
        r@.lemma_multiset_has_no_duplicates_conv();
    }
    r
}

/// Stability of the ordering: two result rows with the same name keep
/// their original relative order — the earlier entry comes first.
pub proof fn lemma_filter_stable(items: Seq<ListEntry>, terms: Seq<Seq<char>>, i: int, j: int)
    requires
        items.len() <= usize::MAX,
        0 <= i < j < filter_ordered(items, terms).len(),
        items[filter_ordered(items, terms)[i] as int].name@ == items[filter_ordered(
            items,
            terms,
        )[j] as int].name@,
    ensures
        filter_ordered(items, terms)[i] < filter_ordered(items, terms)[j],
{
    broadcast use vstd::seq_lib::group_to_multiset_ensures;

    lemma_idx_order_total(items);
    let pred = |ix: usize| entry_matches(items[ix as int].name@, terms);
    let base = Seq::new(items.len(), |t: int| t as usize);
    let m = matching_indices(items, terms);
    let r = filter_ordered(items, terms);
    let leq = idx_order(items);
    m.lemma_sort_by_ensures(leq);
    assert(leq(r[i], r[j]));
    assert(base.no_duplicates()) by {
        assert forall|x: int, y: int|
            0 <= x < base.len() && 0 <= y < base.len() && x != y implies base[x] != base[y] by {
            assert(base[x] == x as usize);
            assert(base[y] == y as usize);
        }
    }
    lemma_filter_keeps_no_dup(base, pred);
    m.lemma_multiset_has_no_duplicates();
    r.lemma_multiset_has_no_duplicates_conv();
    assert(r[i] != r[j]);
    lemma_lex_lt_irreflexive(items[r[i] as int].name@);
}

/// Filtering a sequence keeps every remaining element a member of it.
proof fn lemma_filter_subset(s: Seq<usize>, pred: spec_fn(usize) -> bool)
    ensures
        forall|x: usize| #[trigger] s.filter(pred).contains(x) ==> s.contains(x),
    decreases s.len(),
{
    reveal(Seq::filter);
    if s.len() > 0 {
        lemma_filter_subset(s.drop_last(), pred);
        assert forall|x: usize| #[trigger] s.filter(pred).contains(x) implies s.contains(x) by {
            let f = s.filter(pred);
            let j = choose|j: int| 0 <= j < f.len() && f[j] == x;
            let df = s.drop_last().filter(pred);
            if pred(s.last()) && j == f.len() - 1 {
                assert(s[s.len() - 1] == x);
            } else {
                assert(df[j] == x);
                assert(df.contains(x));
                assert(s.drop_last().contains(x));
                let k = choose|k: int| 0 <= k < s.drop_last().len() && s.drop_last()[k] == x;
                assert(s[k] == x);
            }
        }
    }
}

/// Filtering a sequence with no duplicates yields one with no duplicates.
proof fn lemma_filter_keeps_no_dup(s: Seq<usize>, pred: spec_fn(usize) -> bool)
    requires
        s.no_duplicates(),
    ensures
        s.filter(pred).no_duplicates(),
    decreases s.len(),
{
    reveal(Seq::filter);
    if s.len() > 0 {
        assert(s.drop_last().no_duplicates());
        lemma_filter_keeps_no_dup(s.drop_last(), pred);
        lemma_filter_subset(s.drop_last(), pred);
        let df = s.drop_last().filter(pred);
        if pred(s.last()) {
            assert(!s.drop_last().contains(s.last())) by {
                if s.drop_last().contains(s.last()) {
                    let k = choose|k: int|
                        0 <= k < s.drop_last().len() && s.drop_last()[k] == s.last();
                    assert(s[k] == s[s.len() - 1]);
                }
            }
            assert(!df.contains(s.last()));
            assert(s.filter(pred) == df.push(s.last()));
            assert forall|x: int, y: int|
                0 <= x < s.filter(pred).len() && 0 <= y < s.filter(pred).len() && x != y
                implies s.filter(pred)[x] != s.filter(pred)[y] by {
                let f = s.filter(pred);
                if x < f.len() - 1 && y < f.len() - 1 {
                    assert(f[x] == df[x] && f[y] == df[y]);
                } else if x == f.len() - 1 {
                    assert(f[y] == df[y]);
                    assert(df.contains(df[y]));
                } else {
                    assert(f[x] == df[x]);
                    assert(df.contains(df[x]));
                }
            }
        }
    }
}

} // verus!
