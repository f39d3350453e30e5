//! The application state: the library of entries and the numbering of citations.
use vstd::prelude::*;

use crate::citation_engine::{
    cite_commands_from, citation_keys, compressed, CiteCommand,
};
use crate::formatter::{entry_text, OutputFormat};
use crate::models::{strs, LibraryEntry, PersistedState};
use crate::storage::Storage;
use crate::strmap::StrMap;
use crate::text::{decimal, join};

verus! {

// ---------------------------------------------------------------------------
// Model of the citation numbering
// ---------------------------------------------------------------------------

/// The citation part of a persisted state, as plain values.
pub ghost struct Citations {
    /// Keys in the order they were first cited.
    pub order: Seq<Seq<char>>,
    /// The number given to each cited key.
    pub index: Map<Seq<char>, usize>,
    /// The number the next new key will get.
    pub next: usize,
    /// The number the first citation gets.
    pub start: usize,
}

/// The citation part of `p`.
pub open spec fn citations_of(p: PersistedState) -> Citations {
    Citations {
        order: strs(p.citation_order@),
        index: p.citation_index_by_key@,
        next: p.next_citation_index,
        start: p.citation_start_index,
    }
}

/// `a.saturating_add(b)`.
pub open spec fn sat_add(a: usize, b: usize) -> usize {
    if a + b > usize::MAX {
        usize::MAX
    } else {
        (a + b) as usize
    }
}

/// `v` is the largest number in `m`, or 0 when `m` is empty.
pub open spec fn is_max_of(m: Map<Seq<char>, usize>, v: usize) -> bool {
    &&& forall|k: Seq<char>| #[trigger] m.dom().contains(k) ==> m[k] <= v
    &&& (v == 0 || exists|k: Seq<char>| #[trigger] m.dom().contains(k) && m[k] == v)
}

/// The largest number in `m`, or 0 when `m` is empty.
pub open spec fn map_max(m: Map<Seq<char>, usize>) -> usize {
    choose|v: usize| is_max_of(m, v)
}

/// Only one number is the largest.
pub proof fn lemma_max_unique(m: Map<Seq<char>, usize>, a: usize, b: usize)
    requires
        is_max_of(m, a),
        is_max_of(m, b),
    ensures
        a == b,
{
    if a > 0 {
        let k = choose|k: Seq<char>| #[trigger] m.dom().contains(k) && m[k] == a;
        assert(m[k] <= b);
    }
    if b > 0 {
        let k = choose|k: Seq<char>| #[trigger] m.dom().contains(k) && m[k] == b;
        assert(m[k] <= a);
    }
}

/// A finite map has a largest number.
pub proof fn lemma_max_exists(m: Map<Seq<char>, usize>)
    requires
        m.dom().finite(),
    ensures
        is_max_of(m, map_max(m)),
    decreases m.dom().len(),
{
    if m.dom().len() == 0 {
        assert(m.dom() =~= Set::empty());
        assert(is_max_of(m, 0));
    } else {
        let k = m.dom().choose();
        let r = m.remove(k);
        assert(r.dom() =~= m.dom().remove(k));
        lemma_max_exists(r);
        let v = map_max(r);
        let w = if m[k] > v {
            m[k]
        } else {
            v
        };
        assert forall|j: Seq<char>| #[trigger] m.dom().contains(j) implies m[j] <= w by {
            if j != k {
                assert(r.dom().contains(j));
            }
        }
        if w == v && v > 0 {
            let j = choose|j: Seq<char>| #[trigger] r.dom().contains(j) && r[j] == v;
            assert(m.dom().contains(j));
        }
        assert(is_max_of(m, w));
    }
}

/// `s` without repetitions, keeping first occurrences.
pub open spec fn dedup(s: Seq<Seq<char>>) -> Seq<Seq<char>>
    decreases s.len(),
{
    if s.len() == 0 {
        s
    } else {
        let d = dedup(s.drop_last());
        if d.contains(s.last()) {
            d
        } else {
            d.push(s.last())
        }
    }
}

/// Numbers `start`, `start + 1`, ... given to `order[i..]` in turn, added to `m`.
pub open spec fn number_from(order: Seq<Seq<char>>, i: int, m: Map<Seq<char>, usize>, start: usize) -> Map<
    Seq<char>,
    usize,
>
    decreases order.len() - i,
{
    if i < 0 || i >= order.len() {
        m
    } else {
        number_from(order, i + 1, m.insert(order[i], (start + i) as usize), start)
    }
}

/// Keys of `order[i..]` that have no number get `na`, `na + 1`, ... (saturating),
/// in order; the map and the next unused number.
pub open spec fn fill_missing(order: Seq<Seq<char>>, i: int, m: Map<Seq<char>, usize>, na: usize) -> (
    Map<Seq<char>, usize>,
    usize,
)
    decreases order.len() - i,
{
    if i < 0 || i >= order.len() {
        (m, na)
    } else if m.dom().contains(order[i]) {
        fill_missing(order, i + 1, m, na)
    } else {
        fill_missing(order, i + 1, m.insert(order[i], na), sat_add(na, 1))
    }
}

/// The start number, with 0 read as 1.
pub open spec fn start_or_one(c: Citations) -> usize {
    if c.start == 0 {
        1
    } else {
        c.start
    }
}

/// The numbering after the first repair steps: when no key has a number,
/// the cited keys are numbered from the start number.
pub open spec fn numbered(c: Citations) -> Map<Seq<char>, usize> {
    let order = dedup(c.order);
    if c.index.dom().is_empty() && order.len() > 0 {
        number_from(order, 0, c.index, start_or_one(c))
    } else {
        c.index
    }
}

/// Numbering the cited keys from the start number does not overflow.
pub open spec fn normalize_fits(c: Citations) -> bool {
    let order = dedup(c.order);
    c.index.dom().is_empty() && order.len() > 0 ==> start_or_one(c) + order.len() - 1
        <= usize::MAX
}

/// The repaired numbering state: zero numbers read as 1, repeated keys
/// dropped, numbers of keys that are not cited dropped, cited keys without a
/// number numbered after the largest number, and the next number above all
/// numbers given.
pub open spec fn normalized(c: Citations) -> Citations {
    let start1 = start_or_one(c);
    let next1 = if c.next == 0 {
        1
    } else {
        c.next
    };
    let order = dedup(c.order);
    let m4 = numbered(c).restrict(order.to_set());
    let na0 = if sat_add(map_max(m4), 1) < start1 {
        start1
    } else {
        sat_add(map_max(m4), 1)
    };
    let m5 = fill_missing(order, 0, m4, na0).0;
    let mx = map_max(m5);
    let next = if mx == 0 {
        if start1 > 1 && next1 == 1 {
            start1
        } else {
            next1
        }
    } else if next1 <= mx {
        sat_add(mx, 1)
    } else {
        next1
    };
    Citations { order, index: m5, next, start: start1 }
}

/// A repaired numbering state: the form `normalized` produces.
pub open spec fn citations_wf(c: Citations) -> bool {
    &&& c.start >= 1
    &&& c.next >= 1
    &&& c.order.no_duplicates()
    &&& c.index.dom() == c.order.to_set()
    &&& map_max(c.index) == 0 ==> !(c.start > 1 && c.next == 1)
    &&& map_max(c.index) > 0 ==> (c.next > map_max(c.index) || c.next == usize::MAX)
}

} // verus!

verus! {

/// `dedup` keeps the elements and drops repetitions.
pub proof fn lemma_dedup(s: Seq<Seq<char>>)
    ensures
        dedup(s).no_duplicates(),
        forall|k: Seq<char>| #[trigger] dedup(s).contains(k) <==> s.contains(k),
        dedup(s).to_set() == s.to_set(),
        s.no_duplicates() ==> dedup(s) == s,
    decreases s.len(),
{
    if s.len() > 0 {
        let p = s.drop_last();
        lemma_dedup(p);
        let d = dedup(p);
        assert forall|k: Seq<char>| #[trigger] dedup(s).contains(k) <==> s.contains(k) by {
            if s.contains(k) {
                let j = choose|j: int| 0 <= j < s.len() && s[j] == k;
                if j < s.len() - 1 {
                    assert(p[j] == k);
                    assert(p.contains(k));
                    assert(d.contains(k));
                    if !d.contains(s.last()) {
                        let i = choose|i: int| 0 <= i < d.len() && d[i] == k;
                        assert(d.push(s.last())[i] == k);
                    }
                } else {
                    if !d.contains(s.last()) {
                        assert(d.push(s.last())[d.len() as int] == k);
                    }
                }
            }
            if dedup(s).contains(k) {
                if d.contains(s.last()) {
                    assert(p.contains(k));
                    let j = choose|j: int| 0 <= j < p.len() && p[j] == k;
                    assert(s[j] == k);
                } else {
                    let i = choose|i: int| 0 <= i < d.len() + 1 && d.push(s.last())[i] == k;
                    if i < d.len() {
                        assert(d[i] == k);
                        assert(d.contains(k));
                        assert(p.contains(k));
                        let j = choose|j: int| 0 <= j < p.len() && p[j] == k;
                        assert(s[j] == k);
                    } else {
                        assert(s[s.len() - 1] == k);
                    }
                }
            }
        }
        assert(dedup(s).to_set() =~= s.to_set());
        if !d.contains(s.last()) {
            assert(d.push(s.last()).no_duplicates()) by {
                assert forall|a: int, b: int|
                    0 <= a < d.len() + 1 && 0 <= b < d.len() + 1 && a != b implies d.push(
                    s.last(),
                )[a] != d.push(s.last())[b] by {
                    if a < d.len() && b == d.len() {
                        assert(d.contains(d[a]));
                    } else if b < d.len() && a == d.len() {
                        assert(d.contains(d[b]));
                    }
                }
            }
        }
        if s.no_duplicates() {
            assert(p.no_duplicates());
            assert(!p.contains(s.last())) by {
                if p.contains(s.last()) {
                    let j = choose|j: int| 0 <= j < p.len() && p[j] == s.last();
                    assert(s[j] == s[s.len() - 1]);
                }
            }
            assert(s =~= p.push(s.last()));
        }
    }
}

/// Numbering keys adds exactly those keys.
pub proof fn lemma_number_from_dom(order: Seq<Seq<char>>, i: int, m: Map<Seq<char>, usize>, start: usize)
    requires
        0 <= i <= order.len(),
    ensures
        forall|k: Seq<char>| #[trigger] number_from(order, i, m, start).dom().contains(k) <==> (
        m.dom().contains(k) || exists|j: int| i <= j < order.len() && order[j] == k),
    decreases order.len() - i,
{
    if i < order.len() {
        let m2 = m.insert(order[i], (start + i) as usize);
        lemma_number_from_dom(order, i + 1, m2, start);
        assert forall|k: Seq<char>| #[trigger] number_from(order, i, m, start).dom().contains(k)
            <==> (m.dom().contains(k) || exists|j: int| i <= j < order.len() && order[j] == k) by {
            assert(number_from(order, i, m, start) == number_from(order, i + 1, m2, start));
            if k == order[i] {
                assert(m2.dom().contains(k));
                assert(i <= i < order.len() && order[i] == k);
            }
            if m.dom().contains(k) {
                assert(m2.dom().contains(k));
            }
            if exists|j: int| i <= j < order.len() && order[j] == k {
                let j = choose|j: int| i <= j < order.len() && order[j] == k;
                if j > i {
                    assert(exists|j2: int| i + 1 <= j2 < order.len() && order[j2] == k);
                }
            }
            if exists|j: int| i + 1 <= j < order.len() && order[j] == k {
                let j = choose|j: int| i + 1 <= j < order.len() && order[j] == k;
                assert(i <= j);
            }
        }
    }
}

/// Filling adds exactly the keys of `order[i..]` that were missing; a map that
/// already has them all is left alone.
pub proof fn lemma_fill_missing(order: Seq<Seq<char>>, i: int, m: Map<Seq<char>, usize>, na: usize)
    requires
        0 <= i <= order.len(),
    ensures
        forall|k: Seq<char>| #[trigger] fill_missing(order, i, m, na).0.dom().contains(k) <==> (
        m.dom().contains(k) || exists|j: int| i <= j < order.len() && order[j] == k),
        (forall|j: int| i <= j < order.len() ==> m.dom().contains(#[trigger] order[j]))
            ==> fill_missing(order, i, m, na) == (m, na),
        forall|k: Seq<char>| #[trigger] m.dom().contains(k) ==> fill_missing(order, i, m, na).0[k]
            == m[k],
    decreases order.len() - i,
{
    if i < order.len() {
        let m2 = m.insert(order[i], na);
        if m.dom().contains(order[i]) {
            lemma_fill_missing(order, i + 1, m, na);
        } else {
            lemma_fill_missing(order, i + 1, m2, sat_add(na, 1));
            assert forall|k: Seq<char>| #[trigger] m.dom().contains(k) implies fill_missing(
                order,
                i,
                m,
                na,
            ).0[k] == m[k] by {
                assert(m2.dom().contains(k));
            }
        }
        assert forall|k: Seq<char>| #[trigger] fill_missing(order, i, m, na).0.dom().contains(k)
            <==> (m.dom().contains(k) || exists|j: int| i <= j < order.len() && order[j] == k) by {
            if m.dom().contains(order[i]) {
                assert(fill_missing(order, i, m, na) == fill_missing(order, i + 1, m, na));
            } else {
                assert(fill_missing(order, i, m, na) == fill_missing(
                    order,
                    i + 1,
                    m2,
                    sat_add(na, 1),
                ));
            }
            if k == order[i] {
                assert(m2.dom().contains(k));
                assert(i <= i < order.len() && order[i] == k);
            }
            if m.dom().contains(k) {
                assert(m2.dom().contains(k));
            }
            if exists|j: int| i <= j < order.len() && order[j] == k {
                let j = choose|j: int| i <= j < order.len() && order[j] == k;
                if j > i {
                    assert(exists|j2: int| i + 1 <= j2 < order.len() && order[j2] == k);
                }
            }
            if exists|j: int| i + 1 <= j < order.len() && order[j] == k {
                let j = choose|j: int| i + 1 <= j < order.len() && order[j] == k;
                assert(i <= j);
            }
        }
    }
}

/// `normalized` produces a repaired state.
pub proof fn lemma_normalized_wf(c: Citations)
    ensures
        citations_wf(normalized(c)),
{
    let n = normalized(c);
    let order = dedup(c.order);
    lemma_dedup(c.order);
    let m4 = numbered(c).restrict(order.to_set());
    let na0 = if sat_add(map_max(m4), 1) < start_or_one(c) {
        start_or_one(c)
    } else {
        sat_add(map_max(m4), 1)
    };
    lemma_fill_missing(order, 0, m4, na0);
    assert forall|k: Seq<char>| #[trigger] n.index.dom().contains(k) <==> order.to_set().contains(
        k,
    ) by {
        if order.contains(k) {
            let j = choose|j: int| 0 <= j < order.len() && order[j] == k;
            assert(exists|j2: int| 0 <= j2 < order.len() && order[j2] == k);
        }
        if exists|j: int| 0 <= j < order.len() && order[j] == k {
            let j = choose|j: int| 0 <= j < order.len() && order[j] == k;
            assert(order.contains(k));
        }
    }
    assert(n.index.dom() =~= n.order.to_set());
}

/// Keys numbered by `fill_missing` get numbers from `na` on, increasing
/// (saturating) along `order`.
proof fn lemma_fill_missing_values(order: Seq<Seq<char>>, i: int, m: Map<Seq<char>, usize>, na: usize)
    requires
        0 <= i <= order.len(),
        order.no_duplicates(),
    ensures
        forall|j: int| i <= j < order.len() && !m.dom().contains(#[trigger] order[j])
            ==> fill_missing(order, i, m, na).0[order[j]] >= na,
        forall|j1: int, j2: int|
            i <= j1 < j2 < order.len() && !m.dom().contains(#[trigger] order[j1]) && !m.dom().contains(
                #[trigger] order[j2],
            ) ==> fill_missing(order, i, m, na).0[order[j2]] >= sat_add(
                fill_missing(order, i, m, na).0[order[j1]],
                1,
            ),
    decreases order.len() - i,
{
    if i < order.len() {
        if m.dom().contains(order[i]) {
            lemma_fill_missing_values(order, i + 1, m, na);
        } else {
            let m2 = m.insert(order[i], na);
            let na2 = sat_add(na, 1);
            lemma_fill_missing_values(order, i + 1, m2, na2);
            lemma_fill_missing(order, i + 1, m2, na2);
            let f = fill_missing(order, i, m, na).0;
            assert(f == fill_missing(order, i + 1, m2, na2).0);
            assert(m2.dom().contains(order[i]));
            assert(f[order[i]] == na);
            assert forall|j: int| i < j < order.len() && !m.dom().contains(#[trigger] order[j]) implies !m2.dom().contains(
                order[j],
            ) by {
                assert(order[j] != order[i]);
            }
        }
    }
}

/// A repaired state is left unchanged by `normalized`.
pub proof fn lemma_normalized_fixed(c: Citations)
    requires
        citations_wf(c),
    ensures
        normalized(c) == c,
{
    lemma_dedup(c.order);
    let order = dedup(c.order);
    assert(order == c.order);
    if c.order.len() > 0 {
        assert(c.order.to_set().contains(c.order[0]));
        assert(c.index.dom().contains(c.order[0]));
    }
    assert(numbered(c) == c.index);
    let m4 = numbered(c).restrict(order.to_set());
    assert(m4 =~= c.index);
    let na0 = if sat_add(map_max(m4), 1) < start_or_one(c) {
        start_or_one(c)
    } else {
        sat_add(map_max(m4), 1)
    };
    assert forall|j: int| 0 <= j < order.len() implies m4.dom().contains(#[trigger] order[j]) by {
        assert(order.to_set().contains(order[j]));
    }
    lemma_fill_missing(order, 0, m4, na0);
}

/// A repaired state can be repaired again without overflow.
pub proof fn lemma_wf_fits(c: Citations)
    requires
        citations_wf(c),
    ensures
        normalize_fits(c),
{
    lemma_dedup(c.order);
    if c.order.len() > 0 {
        assert(c.order.to_set().contains(c.order[0]));
        assert(c.index.dom().contains(c.order[0]));
    }
}

/// Repairing keeps the numbers of cited keys that had one (or, when no key
/// had a number, the numbers given from the start number), and numbers the
/// other cited keys in citation order, each above every kept number and the
/// one before it (saturating at `usize::MAX`), and not below the start number.
pub proof fn law_normalize_numbers_new_keys(c: Citations)
    ensures
        ({
            let n = normalized(c);
            let kept = numbered(c).restrict(n.order.to_set());
            &&& n.order == dedup(c.order)
            &&& !c.index.dom().is_empty() ==> kept == c.index.restrict(n.order.to_set())
            &&& forall|k: Seq<char>| #[trigger] kept.dom().contains(k) ==> n.index.dom().contains(k)
                && n.index[k] == kept[k]
            &&& forall|i: int| 0 <= i < n.order.len() && !kept.dom().contains(#[trigger] n.order[i])
                ==> n.index[n.order[i]] >= n.start
            &&& forall|i: int, k: Seq<char>|
                0 <= i < n.order.len() && !kept.dom().contains(#[trigger] n.order[i])
                    && #[trigger] kept.dom().contains(k) ==> n.index[n.order[i]] >= sat_add(kept[k], 1)
            &&& forall|i: int, j: int|
                0 <= i < j < n.order.len() && !kept.dom().contains(#[trigger] n.order[i])
                    && !kept.dom().contains(#[trigger] n.order[j]) ==> n.index[n.order[j]] >= sat_add(
                    n.index[n.order[i]],
                    1,
                )
        }),
{
    let n = normalized(c);
    let order = dedup(c.order);
    lemma_dedup(c.order);
    let m4 = numbered(c).restrict(order.to_set());
    let na0 = if sat_add(map_max(m4), 1) < start_or_one(c) {
        start_or_one(c)
    } else {
        sat_add(map_max(m4), 1)
    };
    lemma_fill_missing(order, 0, m4, na0);
    lemma_fill_missing_values(order, 0, m4, na0);
    assert(m4.dom().finite()) by {
        vstd::seq_lib::seq_to_set_is_finite(order);
        assert(m4.dom().subset_of(order.to_set()));
        vstd::set_lib::lemma_len_subset(m4.dom(), order.to_set());
    }
    lemma_max_exists(m4);
    assert forall|i: int, k: Seq<char>|
        0 <= i < n.order.len() && !m4.dom().contains(#[trigger] n.order[i])
            && #[trigger] m4.dom().contains(k) implies n.index[n.order[i]] >= sat_add(m4[k], 1) by {
        assert(m4[k] <= map_max(m4));
    }
}

/// Repairing twice is the same as repairing once.
pub proof fn law_normalize_idempotent(c: Citations)
    ensures
        normalized(normalized(c)) == normalized(c),
{
    lemma_normalized_wf(c);
    lemma_normalized_fixed(normalized(c));
}

} // verus!

verus! {

// ---------------------------------------------------------------------------
// Repairing a loaded state
// ---------------------------------------------------------------------------

/// The largest number in the map, or 0 when it is empty.
pub fn max_assigned(m: &StrMap<usize>) -> (r: usize)
    requires
        m.wf(),
    ensures
        is_max_of(m@, r),
        r == map_max(m@),
{
    let mut r: usize = 0;
    let mut i: usize = 0;
    while i < m.len()
        invariant
            m.wf(),
            i <= m.keys().len(),
            forall|j: int| 0 <= j < i ==> m.vals()[j] <= r,
            r == 0 || exists|j: int| 0 <= j < i && m.vals()[j] == r,
        decreases m.keys().len() - i,
    {
        let v = *m.value_at(i);
        if v > r {
            r = v;
        }
        i += 1;
    }
    proof {
        m.lemma_wf();
        assert forall|k: Seq<char>| #[trigger] m@.dom().contains(k) implies m@[k] <= r by {
            assert(m.keys().to_set().contains(k));
            let j = choose|j: int| 0 <= j < m.keys().len() && m.keys()[j] == k;
            assert(m@[m.keys()[j]] == m.vals()[j]);
        }
        if r > 0 {
            let j = choose|j: int| 0 <= j < i && m.vals()[j] == r;
            assert(m@[m.keys()[j]] == m.vals()[j]);
            assert(m.keys().contains(m.keys()[j]));
            assert(m@.dom().contains(m.keys()[j]));
        }
        assert(is_max_of(m@, r));
        lemma_max_exists(m@);
        lemma_max_unique(m@, r, map_max(m@));
    }
    r
}

/// Whether `s` occurs in `v`.
pub fn contains_string(v: &Vec<String>, s: &String) -> (r: bool)
    ensures
        r == strs(v@).contains(s@),
{
    let mut i: usize = 0;
    while i < v.len()
        invariant
            i <= v.len(),
            forall|j: int| 0 <= j < i ==> v@[j]@ != s@,
        decreases v.len() - i,
    {
        if v[i] == *s {
            assert(strs(v@)[i as int] == s@);
            return true;
        }
        i += 1;
    }
    proof {
        if strs(v@).contains(s@) {
            let j = choose|j: int| 0 <= j < strs(v@).len() && strs(v@)[j] == s@;
            assert(v@[j]@ == s@);
        }
    }
    false
}

/// Drops repeated keys, keeping first occurrences.
pub fn dedup_citation_order(order: &mut Vec<String>)
    ensures
        strs(final(order)@) == dedup(strs(old(order)@)),
{
    let ghost orig = strs(order@);
    let mut out: Vec<String> = Vec::new();
    let mut i: usize = 0;
    while i < order.len()
        invariant
            i <= order.len(),
            orig == strs(order@),
            strs(out@) == dedup(orig.take(i as int)),
        decreases order.len() - i,
    {
        assert(orig.take(i + 1).drop_last() =~= orig.take(i as int));
        assert(orig.take(i + 1).last() == order@[i as int]@);
        if !contains_string(&out, &order[i]) {
            let c = order[i].clone();
            let ghost prev = out@;
            out.push(c);
            assert(strs(out@) =~= strs(prev).push(c@));
        }
        i += 1;
    }
    assert(orig.take(order.len() as int) =~= orig);
    *order = out;
}

/// Whether the numbering of a loaded state can be repaired without overflow:
/// when no key has a number, the cited keys are numbered from the start
/// number, and the last of those numbers must fit in `usize`.
pub fn numbering_fits(p: &PersistedState) -> (r: bool)
    requires
        p.wf(),
    ensures
        r == normalize_fits(citations_of(*p)),
{
    proof {
        p.citation_index_by_key.lemma_wf();
    }
    if !p.citation_index_by_key.is_empty() {
        proof {
            let k = p.citation_index_by_key.keys()[0];
            assert(p.citation_index_by_key@.dom().contains(k));
        }
        return true;
    }
    assert(p.citation_index_by_key@.dom() =~= Set::empty());
    let mut order = crate::models::clone_strings(&p.citation_order);
    dedup_citation_order(&mut order);
    if order.len() == 0 {
        return true;
    }
    let start = if p.citation_start_index == 0 {
        1
    } else {
        p.citation_start_index
    };
    order.len() - 1 <= usize::MAX - start
}

/// Repairs the numbering of a loaded state.
pub fn normalize_persisted_state(persisted: &mut PersistedState)
    requires
        old(persisted).wf(),
        normalize_fits(citations_of(*old(persisted))),
    ensures
        final(persisted).wf(),
        citations_of(*final(persisted)) == normalized(citations_of(*old(persisted))),
        final(persisted).entries == old(persisted).entries,
        final(persisted).version == old(persisted).version,
{
    let ghost c0 = citations_of(*persisted);
    if persisted.citation_start_index == 0 {
        persisted.citation_start_index = 1;
    }
    if persisted.next_citation_index == 0 {
        persisted.next_citation_index = 1;
    }
    let ghost next1 = persisted.next_citation_index;
    let start = persisted.citation_start_index;
    assert(start == start_or_one(c0));
    dedup_citation_order(&mut persisted.citation_order);
    let ghost order = dedup(c0.order);
    proof {
        lemma_dedup(c0.order);
        persisted.citation_index_by_key.lemma_wf();
    }
    if persisted.citation_index_by_key.is_empty() && persisted.citation_order.len() > 0 {
        assert(c0.index.dom() =~= Set::empty());
        let mut pos: usize = 0;
        while pos < persisted.citation_order.len()
            invariant
                pos <= persisted.citation_order@.len(),
                persisted.wf(),
                strs(persisted.citation_order@) == order,
                start == start_or_one(c0),
                start + order.len() - 1 <= usize::MAX,
                number_from(order, pos as int, persisted.citation_index_by_key@, start)
                    == number_from(order, 0, c0.index, start),
                persisted.entries == old(persisted).entries,
                persisted.version == old(persisted).version,
                persisted.next_citation_index == next1,
                persisted.citation_start_index == start,
            decreases persisted.citation_order@.len() - pos,
        {
            let key = persisted.citation_order[pos].clone();
            assert(key@ == order[pos as int]);
            persisted.citation_index_by_key.insert(key, start + pos);
            pos += 1;
        }
        assert(persisted.citation_index_by_key@ == numbered(c0));
    } else {
        assert(c0.index.dom().is_empty() ==> c0.index.dom().len() == 0);
        assert(persisted.citation_index_by_key@ == numbered(c0));
    }
    persisted.citation_index_by_key.retain_listed(&persisted.citation_order);
    proof {
        assert(persisted.citation_order@.map_values(|s: String| s@) =~= order);
    }
    let ghost m4 = numbered(c0).restrict(order.to_set());
    assert(persisted.citation_index_by_key@ == m4);
    let top = max_assigned(&persisted.citation_index_by_key);
    let mut next_assign = top.saturating_add(1);
    if next_assign < start {
        next_assign = start;
    }
    let ghost na0 = next_assign;
    let mut i: usize = 0;
    while i < persisted.citation_order.len()
        invariant
            i <= persisted.citation_order@.len(),
            persisted.wf(),
            strs(persisted.citation_order@) == order,
            fill_missing(order, i as int, persisted.citation_index_by_key@, next_assign)
                == fill_missing(order, 0, m4, na0),
            persisted.entries == old(persisted).entries,
            persisted.version == old(persisted).version,
            persisted.next_citation_index == next1,
            persisted.citation_start_index == start,
        decreases persisted.citation_order@.len() - i,
    {
        assert(persisted.citation_order@[i as int]@ == order[i as int]);
        if !persisted.citation_index_by_key.contains_key(&persisted.citation_order[i]) {
            let key = persisted.citation_order[i].clone();
            persisted.citation_index_by_key.insert(key, next_assign);
            next_assign = next_assign.saturating_add(1);
        }
        i += 1;
    }
    assert(persisted.citation_index_by_key@ == fill_missing(order, 0, m4, na0).0);
    let max_now = max_assigned(&persisted.citation_index_by_key);
    if max_now == 0 {
        if persisted.citation_start_index > 1 && persisted.next_citation_index == 1 {
            persisted.next_citation_index = persisted.citation_start_index;
        }
    } else if persisted.next_citation_index <= max_now {
        persisted.next_citation_index = max_now.saturating_add(1);
    }
    assert(citations_of(*persisted) == normalized(c0));
}

} // verus!

verus! {

// ---------------------------------------------------------------------------
// Model of a citation request
// ---------------------------------------------------------------------------

/// The number that `key` gets, and the state after it: a key that already has
/// a number keeps it; a new key is appended to the order and gets the next
/// number (never below one more than the largest number given).
pub open spec fn resolve_step(c: Citations, key: Seq<char>) -> (Citations, usize, bool) {
    if c.index.dom().contains(key) {
        (
            Citations {
                order: if c.order.contains(key) {
                    c.order
                } else {
                    c.order.push(key)
                },
                ..c
            },
            c.index[key],
            false,
        )
    } else {
        let minimum = sat_add(map_max(c.index), 1);
        let assigned = if c.next < minimum {
            minimum
        } else {
            c.next
        };
        (
            Citations {
                order: c.order.push(key),
                index: c.index.insert(key, assigned),
                next: sat_add(assigned, 1),
                ..c
            },
            assigned,
            true,
        )
    }
}

/// The numbers of `keys` in turn, the state after them, and how many keys were new.
pub open spec fn resolve_all(c: Citations, keys: Seq<Seq<char>>) -> (Citations, Seq<usize>, nat)
    decreases keys.len(),
{
    if keys.len() == 0 {
        (c, Seq::empty(), 0)
    } else {
        let (c1, idx, n) = resolve_all(c, keys.drop_last());
        let (c2, i, new) = resolve_step(c1, keys.last());
        (
            c2,
            idx.push(i),
            if new {
                n + 1
            } else {
                n
            },
        )
    }
}

/// The keys not in `present`, each once, in order of first appearance.
pub open spec fn missing_keys(present: Set<Seq<char>>, keys: Seq<Seq<char>>) -> Seq<Seq<char>>
    decreases keys.len(),
{
    if keys.len() == 0 {
        Seq::empty()
    } else {
        let m = missing_keys(present, keys.drop_last());
        let k = keys.last();
        if present.contains(k) || m.contains(k) {
            m
        } else {
            m.push(k)
        }
    }
}

/// The keys of all commands, in order.
pub open spec fn command_keys(cmds: Seq<(int, int, Seq<Seq<char>>)>) -> Seq<Seq<char>>
    decreases cmds.len(),
{
    if cmds.len() == 0 {
        Seq::empty()
    } else {
        command_keys(cmds.drop_last()) + cmds.last().2
    }
}

/// The paragraph up to the end of command `k - 1`, with each command replaced
/// by its compressed numbers; the state, the position after the last command
/// and the count of new keys.
pub open spec fn render_commands(
    c: Citations,
    raw: Seq<char>,
    cmds: Seq<(int, int, Seq<Seq<char>>)>,
    k: int,
) -> (Citations, Seq<char>, int, nat)
    decreases k,
{
    if k <= 0 || k > cmds.len() {
        (c, Seq::empty(), 0, 0)
    } else {
        let (c1, text, cursor, n1) = render_commands(c, raw, cmds, k - 1);
        let cmd = cmds[k - 1];
        let (c2, idx, n) = resolve_all(c1, cmd.2);
        (c2, text + raw.subrange(cursor, cmd.0) + compressed(idx), cmd.1, n1 + n)
    }
}

/// The error for input without keys.
pub open spec fn empty_input_message() -> Seq<char> {
    "Citation input is empty. Please provide at least one key."@
}

/// The error for a `\cite{}` without keys.
pub open spec fn empty_command_message() -> Seq<char> {
    "Found empty \\cite{} command. Please provide at least one key."@
}

/// The error that lists keys missing from the library.
pub open spec fn missing_message(missing: Seq<Seq<char>>) -> Seq<char> {
    "Missing citation key(s): "@ + join(missing, ", "@)
}

/// The outcome of citing `raw` against the numbering `c`, with `present` the
/// keys of the library: the new numbering, the citation text and the number
/// of new keys, or the error. Nothing changes unless every key is present.
pub open spec fn cite_outcome(c: Citations, present: Set<Seq<char>>, raw: Seq<char>) -> Result<
    (Citations, Seq<char>, nat),
    Seq<char>,
> {
    let cmds = cite_commands_from(raw, 0);
    if cmds.len() > 0 {
        if exists|i: int| 0 <= i < cmds.len() && (#[trigger] cmds[i]).2.len() == 0 {
            Err(empty_command_message())
        } else if missing_keys(present, command_keys(cmds)).len() > 0 {
            Err(missing_message(missing_keys(present, command_keys(cmds))))
        } else {
            let (c2, text, cursor, n) = render_commands(c, raw, cmds, cmds.len() as int);
            Ok((c2, text + raw.subrange(cursor, raw.len() as int), n))
        }
    } else {
        let keys = citation_keys(raw);
        if keys.len() == 0 {
            Err(empty_input_message())
        } else if missing_keys(present, keys).len() > 0 {
            Err(missing_message(missing_keys(present, keys)))
        } else {
            let (c2, idx, n) = resolve_all(c, keys);
            Ok((c2, compressed(idx), n))
        }
    }
}

// ---------------------------------------------------------------------------
// Facts about citation requests
// ---------------------------------------------------------------------------

/// The largest number after adding a number at least as large as all others.
proof fn lemma_max_insert(m: Map<Seq<char>, usize>, k: Seq<char>, a: usize)
    requires
        m.dom().finite(),
        a >= map_max(m),
    ensures
        map_max(m.insert(k, a)) == a,
{
    lemma_max_exists(m);
    let m2 = m.insert(k, a);
    assert forall|j: Seq<char>| #[trigger] m2.dom().contains(j) implies m2[j] <= a by {
        if j != k {
            assert(m.dom().contains(j));
        }
    }
    assert(m2.dom().contains(k));
    assert(is_max_of(m2, a));
    lemma_max_exists(m2);
    lemma_max_unique(m2, a, map_max(m2));
}

/// One step keeps the numbering repaired, keeps every number given, and gives
/// the key a number.
pub proof fn lemma_resolve_step(c: Citations, key: Seq<char>)
    requires
        citations_wf(c),
    ensures
        citations_wf(resolve_step(c, key).0),
        resolve_step(c, key).0.start == c.start,
        resolve_step(c, key).0.index.dom().contains(key),
        resolve_step(c, key).0.index[key] == resolve_step(c, key).1,
        c.order.is_prefix_of(resolve_step(c, key).0.order),
        forall|k: Seq<char>| #[trigger] c.index.dom().contains(k) ==> resolve_step(c, key).0.index.dom().contains(k)
            && resolve_step(c, key).0.index[k] == c.index[k],
        !c.index.dom().contains(key) ==> resolve_step(c, key).1 > map_max(c.index) || map_max(c.index) == usize::MAX,
        resolve_step(c, key).0.order.len() == c.order.len() + if resolve_step(c, key).2 {
            1int
        } else {
            0int
        },
        resolve_step(c, key).2 == !c.index.dom().contains(key),
{
    let r = resolve_step(c, key).0;
    if c.index.dom().contains(key) {
        assert(c.order.to_set().contains(key));
        assert(c.order.contains(key));
        assert(r.order == c.order);
    } else {
        assert(!c.order.to_set().contains(key));
        let minimum = sat_add(map_max(c.index), 1);
        let assigned = if c.next < minimum {
            minimum
        } else {
            c.next
        };
        lemma_max_exists(c.index);
        assert(c.index.dom().finite()) by {
            assert(c.index.dom() == c.order.to_set());
            vstd::seq_lib::seq_to_set_is_finite(c.order);
        }
        lemma_max_insert(c.index, key, assigned);
        assert(r.order.no_duplicates()) by {
            assert forall|a: int, b: int| 0 <= a < r.order.len() && 0 <= b < r.order.len() && a != b
                implies r.order[a] != r.order[b] by {
                if a == c.order.len() {
                    assert(c.order.contains(r.order[b]));
                } else if b == c.order.len() {
                    assert(c.order.contains(r.order[a]));
                }
            }
        }
        c.order.lemma_push_to_set_commute(key);
        assert(r.index.dom() =~= r.order.to_set());
        assert(c.order.is_prefix_of(r.order)) by {
            assert(r.order.subrange(0, c.order.len() as int) =~= c.order);
        }
    }
    assert(c.order.is_prefix_of(r.order)) by {
        assert(r.order.subrange(0, c.order.len() as int) =~= c.order);
    }
}

} // verus!

verus! {

/// A sequence of steps keeps the numbering repaired and every number given,
/// and each key ends up with the number reported for it.
pub proof fn lemma_resolve_all(c: Citations, keys: Seq<Seq<char>>)
    requires
        citations_wf(c),
    ensures
        citations_wf(resolve_all(c, keys).0),
        resolve_all(c, keys).0.start == c.start,
        c.order.is_prefix_of(resolve_all(c, keys).0.order),
        forall|k: Seq<char>| #[trigger] c.index.dom().contains(k) ==> resolve_all(c, keys).0.index.dom().contains(k)
            && resolve_all(c, keys).0.index[k] == c.index[k],
        resolve_all(c, keys).1.len() == keys.len(),
        resolve_all(c, keys).2 <= keys.len(),
        resolve_all(c, keys).0.order.len() == c.order.len() + resolve_all(c, keys).2,
        forall|j: int| 0 <= j < keys.len() ==> resolve_all(c, keys).0.index.dom().contains(#[trigger] keys[j])
            && resolve_all(c, keys).0.index[keys[j]] == resolve_all(c, keys).1[j],
    decreases keys.len(),
{
    if keys.len() > 0 {
        let p = keys.drop_last();
        lemma_resolve_all(c, p);
        let (c1, idx, n) = resolve_all(c, p);
        lemma_resolve_step(c1, keys.last());
        let c2 = resolve_step(c1, keys.last()).0;
        assert forall|j: int| 0 <= j < keys.len() implies resolve_all(c, keys).0.index.dom().contains(
            #[trigger] keys[j],
        ) && resolve_all(c, keys).0.index[keys[j]] == resolve_all(c, keys).1[j] by {
            if j < keys.len() - 1 {
                assert(p[j] == keys[j]);
                assert(c1.index.dom().contains(p[j]));
            }
        }
        assert(c.order.is_prefix_of(c2.order)) by {
            assert(c2.order.subrange(0, c.order.len() as int) =~= c.order) by {
                assert(c1.order.subrange(0, c.order.len() as int) =~= c.order);
                assert(c2.order.subrange(0, c1.order.len() as int) =~= c1.order);
            }
        }
    }
}

// ---------------------------------------------------------------------------
// The application state
// ---------------------------------------------------------------------------

/// The state file's location together with what is in it.
#[derive(Debug)]
pub struct AppState {
    storage: Storage,
    persisted: PersistedState,
}

impl AppState {
    /// What the state holds.
    pub closed spec fn data(&self) -> PersistedState {
        self.persisted
    }

    /// Where the state is kept.
    pub closed spec fn location(&self) -> Storage {
        self.storage
    }

    /// The maps are well formed and the numbering can be repaired without overflow.
    pub open spec fn wf(&self) -> bool {
        &&& self.data().wf()
        &&& normalize_fits(citations_of(self.data()))
    }

    /// The persisted part of the state.
    pub fn persisted(&self) -> (r: &PersistedState)
        ensures
            *r == self.data(),
    {
        &self.persisted
    }

    /// The storage of the state.
    pub fn storage(&self) -> (r: &Storage)
        ensures
            *r == self.location(),
    {
        &self.storage
    }

    /// Gives numbers to `keys` in turn: the numbers, and how many keys were new.
    fn resolve_indexes_for_keys(&mut self, keys: &Vec<String>) -> (r: (Vec<usize>, usize))
        requires
            old(self).data().wf(),
            citations_wf(citations_of(old(self).data())),
        ensures
            final(self).data().wf(),
            citations_wf(citations_of(final(self).data())),
            final(self).data().entries == old(self).data().entries,
            final(self).data().version == old(self).data().version,
            final(self).location() == old(self).location(),
            ({
                let (c2, idx, n) = resolve_all(citations_of(old(self).data()), strs(keys@));
                &&& citations_of(final(self).data()) == c2
                &&& r.0@ == idx
                &&& r.1 == n
            }),
    {
        let ghost c0 = citations_of(self.persisted);
        let ghost ks = strs(keys@);
        let mut resolved: Vec<usize> = Vec::new();
        let mut newly_added_count: usize = 0;
        let mut i: usize = 0;
        while i < keys.len()
            invariant
                i <= keys.len(),
                ks == strs(keys@),
                self.persisted.wf(),
                self.persisted.entries == old(self).persisted.entries,
                self.persisted.version == old(self).persisted.version,
                self.storage == old(self).storage,
                c0 == citations_of(old(self).persisted),
                citations_wf(c0),
                resolve_all(c0, ks.take(i as int)) == (citations_of(self.persisted), resolved@, newly_added_count as nat),
                newly_added_count <= i,
            decreases keys.len() - i,
        {
            proof {
                assert(ks.take(i + 1).drop_last() =~= ks.take(i as int));
                assert(ks.take(i + 1).last() == keys@[i as int]@);
                lemma_resolve_all(c0, ks.take(i as int));
                self.persisted.citation_index_by_key.lemma_wf();
            }
            let key = &keys[i];
            let ghost ci = citations_of(self.persisted);
            match self.persisted.citation_index_by_key.get(key) {
                Some(index) => {
                    let index = *index;
                    if !contains_string(&self.persisted.citation_order, key) {
                        let kc = key.clone();
                        let ghost prev = self.persisted.citation_order@;
                        self.persisted.citation_order.push(kc);
                        assert(strs(self.persisted.citation_order@) =~= strs(prev).push(key@));
                    }
                    proof {
                        let st = resolve_step(ci, key@).0;
                        assert(strs(self.persisted.citation_order@) == st.order);
                        assert(citations_of(self.persisted) == st);
                    }
                    resolved.push(index);
                },
                None => {
                    let assigned = self.reserve_next_index();
                    let kc = key.clone();
                    let ghost prev = self.persisted.citation_order@;
                    self.persisted.citation_order.push(kc);
                    assert(strs(self.persisted.citation_order@) =~= strs(prev).push(key@));
                    self.persisted.citation_index_by_key.insert(key.clone(), assigned);
                    proof {
                        let st = resolve_step(ci, key@).0;
                        assert(citations_of(self.persisted) == st);
                    }
                    resolved.push(assigned);
                    newly_added_count += 1;
                },
            }
            proof {
                assert(resolve_all(c0, ks.take(i + 1)).1 =~= resolved@);
            }
            i += 1;
        }
        proof {
            assert(ks.take(keys.len() as int) =~= ks);
            lemma_resolve_all(c0, ks);
        }
        (resolved, newly_added_count)
    }

    /// The number for a new key: the next number, raised to one more than
    /// the largest number given when it is below that.
    fn reserve_next_index(&mut self) -> (assigned: usize)
        requires
            old(self).persisted.wf(),
        ensures
            final(self).persisted.wf(),
            final(self).persisted.entries == old(self).persisted.entries,
            final(self).persisted.version == old(self).persisted.version,
            final(self).persisted.citation_order == old(self).persisted.citation_order,
            final(self).persisted.citation_index_by_key == old(self).persisted.citation_index_by_key,
            final(self).persisted.citation_start_index == old(self).persisted.citation_start_index,
            final(self).storage == old(self).storage,
            ({
                let c = citations_of(old(self).persisted);
                let minimum = sat_add(map_max(c.index), 1);
                &&& assigned == (if c.next < minimum {
                    minimum
                } else {
                    c.next
                })
                &&& final(self).persisted.next_citation_index == sat_add(assigned, 1)
            }),
    {
        let minimum_next = max_assigned(&self.persisted.citation_index_by_key).saturating_add(1);
        if self.persisted.next_citation_index < minimum_next {
            self.persisted.next_citation_index = minimum_next;
        }
        let assigned = self.persisted.next_citation_index;
        self.persisted.next_citation_index = assigned.saturating_add(1);
        assigned
    }
}

} // verus!

verus! {

// ---------------------------------------------------------------------------
// The reference list
// ---------------------------------------------------------------------------

/// The cited keys that have a number, with their numbers, in citation order.
pub open spec fn cited_pairs(order: Seq<Seq<char>>, index: Map<Seq<char>, usize>) -> Seq<(Seq<char>, usize)>
    decreases order.len(),
{
    if order.len() == 0 {
        Seq::empty()
    } else {
        let r = cited_pairs(order.drop_last(), index);
        if index.dom().contains(order.last()) {
            r.push((order.last(), index[order.last()]))
        } else {
            r
        }
    }
}

/// `x` placed after every pair whose number is not larger (stable insertion).
pub open spec fn insert_by_number(s: Seq<(Seq<char>, usize)>, x: (Seq<char>, usize)) -> Seq<(Seq<char>, usize)>
    decreases s.len(),
{
    if s.len() == 0 || s.last().1 <= x.1 {
        s.push(x)
    } else {
        insert_by_number(s.drop_last(), x).push(s.last())
    }
}

/// The pairs ordered by number; pairs with equal numbers keep their order.
pub open spec fn sort_by_number(s: Seq<(Seq<char>, usize)>) -> Seq<(Seq<char>, usize)>
    decreases s.len(),
{
    if s.len() == 0 {
        s
    } else {
        insert_by_number(sort_by_number(s.drop_last()), s.last())
    }
}

/// Runs of adjacent pairs with the same key reduced to their first pair.
pub open spec fn dedup_adjacent(s: Seq<(Seq<char>, usize)>) -> Seq<(Seq<char>, usize)>
    decreases s.len(),
{
    if s.len() == 0 {
        s
    } else {
        let d = dedup_adjacent(s.drop_last());
        if d.len() > 0 && d.last().0 == s.last().0 {
            d
        } else {
            d.push(s.last())
        }
    }
}

/// One line of the reference list: `[n]  reference`.
pub open spec fn reference_line(
    entries: Map<Seq<char>, LibraryEntry>,
    key: Seq<char>,
    number: usize,
    format: OutputFormat,
) -> Seq<char> {
    "["@ + decimal(number as nat) + "]  "@ + if entries.dom().contains(key) {
        entry_text(entries[key], format)
    } else {
        "[Missing entry for key: "@ + key + "]"@
    }
}

/// The lines for the pairs.
pub open spec fn reference_lines(
    entries: Map<Seq<char>, LibraryEntry>,
    pairs: Seq<(Seq<char>, usize)>,
    format: OutputFormat,
) -> Seq<Seq<char>> {
    pairs.map_values(|p: (Seq<char>, usize)| reference_line(entries, p.0, p.1, format))
}

/// The reference list: one line per cited key, ordered by number, separated by blank lines.
pub open spec fn references_text(entries: Map<Seq<char>, LibraryEntry>, c: Citations, format: OutputFormat) -> Seq<char> {
    join(
        reference_lines(entries, dedup_adjacent(sort_by_number(cited_pairs(c.order, c.index))), format),
        "\n\n"@,
    )
}

/// The views of key and number pairs.
pub open spec fn pair_views(v: Seq<(String, usize)>) -> Seq<(Seq<char>, usize)> {
    v.map_values(|p: (String, usize)| (p.0@, p.1))
}

/// Stable insertion at the position the search from the back finds.
proof fn lemma_insert_by_number_split(s: Seq<(Seq<char>, usize)>, x: (Seq<char>, usize), p: int)
    requires
        0 <= p <= s.len(),
        forall|j: int| p <= j < s.len() ==> (#[trigger] s[j]).1 > x.1,
    ensures
        insert_by_number(s, x) == insert_by_number(s.take(p), x) + s.skip(p),
    decreases s.len() - p,
{
    if p < s.len() {
        lemma_insert_by_number_split(s.drop_last(), x, p);
        assert(s.drop_last().take(p) =~= s.take(p));
        assert(s.drop_last().skip(p).push(s.last()) =~= s.skip(p));
    } else {
        assert(s.take(p) =~= s);
        assert(s.skip(p) =~= Seq::<(Seq<char>, usize)>::empty());
    }
}

/// The lines of the reference list for a persisted state.
pub fn build_cited_references_text(persisted: &PersistedState, output_format: OutputFormat) -> (r: String)
    requires
        persisted.wf(),
    ensures
        r@ == references_text(persisted.entries@, citations_of(*persisted), output_format),
{
    let ghost c = citations_of(*persisted);
    // The cited keys with their numbers.
    let mut pairs: Vec<(String, usize)> = Vec::new();
    let mut i: usize = 0;
    while i < persisted.citation_order.len()
        invariant
            i <= persisted.citation_order@.len(),
            persisted.wf(),
            c == citations_of(*persisted),
            pair_views(pairs@) == cited_pairs(c.order.take(i as int), c.index),
        decreases persisted.citation_order@.len() - i,
    {
        assert(c.order.take(i + 1).drop_last() =~= c.order.take(i as int));
        assert(c.order.take(i + 1).last() == persisted.citation_order@[i as int]@);
        match persisted.citation_index_by_key.get(&persisted.citation_order[i]) {
            Some(n) => {
                let k = persisted.citation_order[i].clone();
                let ghost prev = pair_views(pairs@);
                pairs.push((k, *n));
                assert(pair_views(pairs@) =~= prev.push((k@, *n)));
            },
            None => {},
        }
        i += 1;
    }
    assert(c.order.take(c.order.len() as int) =~= c.order);
    let ghost all = pair_views(pairs@);
    // Stable sort by number.
    let mut sorted: Vec<(String, usize)> = Vec::new();
    let mut i: usize = 0;
    while i < pairs.len()
        invariant
            i <= pairs@.len(),
            all == pair_views(pairs@),
            pair_views(sorted@) == sort_by_number(all.take(i as int)),
        decreases pairs@.len() - i,
    {
        assert(all.take(i + 1).drop_last() =~= all.take(i as int));
        let x = (pairs[i].0.clone(), pairs[i].1);
        assert(all.take(i + 1).last() == (x.0@, x.1));
        let ghost sv = pair_views(sorted@);
        let mut p: usize = sorted.len();
        while p > 0 && sorted[p - 1].1 > x.1
            invariant
                p <= sorted@.len(),
                sv == pair_views(sorted@),
                forall|j: int| p <= j < sorted@.len() ==> (#[trigger] sv[j]).1 > x.1,
            decreases p,
        {
            p -= 1;
        }
        proof {
            lemma_insert_by_number_split(sv, (x.0@, x.1), p as int);
            assert(insert_by_number(sv.take(p as int), (x.0@, x.1)) == sv.take(p as int).push(
                (x.0@, x.1),
            )) by {
                if p > 0 {
                    assert(sv.take(p as int).last() == sv[p - 1]);
                }
            }
        }
        let ghost xv = (x.0@, x.1);
        sorted.insert(p, x);
        assert(pair_views(sorted@) =~= sv.take(p as int).push(xv) + sv.skip(p as int));
        i += 1;
    }
    assert(all.take(pairs@.len() as int) =~= all);
    // Keep the first of adjacent pairs with the same key.
    let ghost sorted_all = pair_views(sorted@);
    let mut kept: Vec<(String, usize)> = Vec::new();
    let mut i: usize = 0;
    while i < sorted.len()
        invariant
            i <= sorted@.len(),
            sorted_all == pair_views(sorted@),
            pair_views(kept@) == dedup_adjacent(sorted_all.take(i as int)),
        decreases sorted@.len() - i,
    {
        assert(sorted_all.take(i + 1).drop_last() =~= sorted_all.take(i as int));
        assert(sorted_all.take(i + 1).last() == (sorted@[i as int].0@, sorted@[i as int].1));
        let same = kept.len() > 0 && kept[kept.len() - 1].0 == sorted[i].0;
        if !same {
            let x = (sorted[i].0.clone(), sorted[i].1);
            let ghost prev = pair_views(kept@);
            kept.push(x);
            assert(pair_views(kept@) =~= prev.push((x.0@, x.1)));
        }
        i += 1;
    }
    assert(sorted_all.take(sorted@.len() as int) =~= sorted_all);
    // One line per kept pair.
    let ghost kv = pair_views(kept@);
    let mut lines: Vec<Vec<char>> = Vec::new();
    let mut i: usize = 0;
    while i < kept.len()
        invariant
            i <= kept@.len(),
            persisted.wf(),
            kv == pair_views(kept@),
            crate::text::views(lines@) =~= reference_lines(persisted.entries@, kv.take(i as int), output_format),
        decreases kept@.len() - i,
    {
        let line = reference_line_exec(persisted, &kept[i].0, kept[i].1, output_format);
        let ghost prev = crate::text::views(lines@);
        lines.push(line);
        assert(crate::text::views(lines@) =~= prev.push(line@));
        i += 1;
    }
    assert(kv.take(kept@.len() as int) =~= kv);
    let sep = crate::text::lit("\n\n");
    let text = crate::text::join_chars(&lines, sep.as_slice());
    crate::text::string_of(text.as_slice())
}

/// One line of the reference list.
fn reference_line_exec(persisted: &PersistedState, key: &String, number: usize, output_format: OutputFormat) -> (r: Vec<char>)
    requires
        persisted.wf(),
    ensures
        r@ == reference_line(persisted.entries@, key@, number, output_format),
{
    let mut out: Vec<char> = Vec::new();
    out.push('[');
    crate::text::push_decimal(&mut out, number);
    out.push(']');
    out.push(' ');
    out.push(' ');
    let ghost head = out@;
    proof {
        reveal_strlit("[");
        reveal_strlit("]  ");
        assert(head =~= "["@ + decimal(number as nat) + "]  "@);
    }
    match persisted.entries.get(key) {
        Some(entry) => {
            let f = crate::formatter::format_entry(entry, output_format);
            let fc = crate::text::chars_of(f.as_str());
            crate::text::extend_chars(&mut out, fc.as_slice());
        },
        None => {
            let pre = crate::text::lit("[Missing entry for key: ");
            crate::text::extend_chars(&mut out, pre.as_slice());
            let kc = crate::text::chars_of(key.as_str());
            crate::text::extend_chars(&mut out, kc.as_slice());
            out.push(']');
            proof {
                reveal_strlit("]");
                assert(out@ =~= head + ("[Missing entry for key: "@ + key@ + "]"@));
            }
        },
    }
    out
}

} // verus!

verus! {

/// A string with the characters of `s`.
fn owned(s: &str) -> (r: String)
    ensures
        r@ == s@,
{
    s.to_owned()
}

/// The strings joined with `sep`, as characters.
fn join_strings(parts: &Vec<String>, sep: &str) -> (r: Vec<char>)
    ensures
        r@ == join(strs(parts@), sep@),
{
    let mut cs: Vec<Vec<char>> = Vec::new();
    let mut i: usize = 0;
    while i < parts.len()
        invariant
            i <= parts.len(),
            crate::text::views(cs@) == strs(parts@).take(i as int),
        decreases parts.len() - i,
    {
        let c = crate::text::chars_of(parts[i].as_str());
        let ghost prev = crate::text::views(cs@);
        cs.push(c);
        assert(crate::text::views(cs@) =~= prev.push(c@));
        assert(strs(parts@).take(i + 1) =~= strs(parts@).take(i as int).push(parts@[i as int]@));
        i += 1;
    }
    assert(strs(parts@).take(parts.len() as int) =~= strs(parts@));
    let sc = crate::text::chars_of(sep);
    crate::text::join_chars(&cs, sc.as_slice())
}

/// The error that lists the missing keys.
fn missing_error(missing: &Vec<String>) -> (r: String)
    ensures
        r@ == missing_message(strs(missing@)),
{
    let mut out = crate::text::lit("Missing citation key(s): ");
    let j = join_strings(missing, ", ");
    crate::text::extend_chars(&mut out, j.as_slice());
    crate::text::string_of(out.as_slice())
}

impl AppState {
    /// The keys that are not in the library, each once, in order.
    fn collect_missing_keys(&self, keys: &Vec<String>) -> (r: Vec<String>)
        requires
            self.data().wf(),
        ensures
            strs(r@) == missing_keys(self.data().entries@.dom(), strs(keys@)),
    {
        let ghost ks = strs(keys@);
        let ghost present = self.persisted.entries@.dom();
        let mut missing: Vec<String> = Vec::new();
        let mut i: usize = 0;
        while i < keys.len()
            invariant
                i <= keys.len(),
                self.data().wf(),
                ks == strs(keys@),
                present == self.persisted.entries@.dom(),
                strs(missing@) == missing_keys(present, ks.take(i as int)),
            decreases keys.len() - i,
        {
            assert(ks.take(i + 1).drop_last() =~= ks.take(i as int));
            assert(ks.take(i + 1).last() == keys@[i as int]@);
            if !self.persisted.entries.contains_key(&keys[i]) {
                if !contains_string(&missing, &keys[i]) {
                    let k = keys[i].clone();
                    let ghost prev = strs(missing@);
                    missing.push(k);
                    assert(strs(missing@) =~= prev.push(k@));
                }
            }
            i += 1;
        }
        assert(ks.take(keys.len() as int) =~= ks);
        missing
    }

    /// Repairs the numbering; a well-formed state is left as it is.
    fn ensure_citation_index_state(&mut self)
        requires
            old(self).wf(),
        ensures
            final(self).wf(),
            citations_wf(citations_of(final(self).data())),
            citations_of(final(self).data()) == normalized(citations_of(old(self).data())),
            final(self).data().entries == old(self).data().entries,
            final(self).data().version == old(self).data().version,
            final(self).location() == old(self).location(),
    {
        normalize_persisted_state(&mut self.persisted);
        proof {
            lemma_normalized_wf(citations_of(old(self).persisted));
            lemma_wf_fits(citations_of(self.persisted));
        }
    }

    /// The result of a successful request; saving is left to the caller.
    fn finalize_citation(&self, citation_text: String, newly_added_count: usize) -> (r: crate::models::CiteResult)
        requires
            self.data().wf(),
        ensures
            r.citation_text == citation_text,
            r.newly_added_count == newly_added_count,
            r.cited_references_text@ == references_text(
                self.data().entries@,
                citations_of(self.data()),
                OutputFormat::DefaultV1,
            ),
    {
        let cited_references_text = self.cited_references_text();
        crate::models::CiteResult { citation_text, cited_references_text, newly_added_count }
    }

    /// The reference list in the default style.
    pub fn cited_references_text(&self) -> (r: String)
        requires
            self.data().wf(),
        ensures
            r@ == references_text(self.data().entries@, citations_of(self.data()), OutputFormat::DefaultV1),
    {
        build_cited_references_text(&self.persisted, OutputFormat::DefaultV1)
    }
}

} // verus!

verus! {

impl AppState {
    /// Cites the keys in `raw_input`.
    ///
    /// The input is either a list of keys separated by commas and whitespace,
    /// or a paragraph with `\cite{..}` commands, each of which is replaced by
    /// its numbers. A request that names a key missing from the library
    /// changes nothing; saving the state is left to the caller.
    pub fn cite_keys(&mut self, raw_input: &str) -> (r: Result<crate::models::CiteResult, String>)
        requires
            old(self).wf(),
        ensures
            final(self).wf(),
            final(self).data().entries == old(self).data().entries,
            final(self).data().version == old(self).data().version,
            final(self).location() == old(self).location(),
            match cite_outcome(
                normalized(citations_of(old(self).data())),
                old(self).data().entries@.dom(),
                raw_input@,
            ) {
                Err(msg) => r matches Err(e) && e@ == msg && citations_of(final(self).data())
                    == normalized(citations_of(old(self).data())),
                Ok((c2, text, n)) => r matches Ok(res) && citations_of(final(self).data()) == c2
                    && res.citation_text@ == text && res.newly_added_count == n
                    && res.cited_references_text@ == references_text(
                    final(self).data().entries@,
                    c2,
                    OutputFormat::DefaultV1,
                ),
            },
            citations_wf(citations_of(old(self).data())) && r is Err ==> citations_of(
                final(self).data(),
            ) == citations_of(old(self).data()),
    {
        proof {
            if citations_wf(citations_of(self.persisted)) {
                lemma_normalized_fixed(citations_of(self.persisted));
            }
        }
        self.ensure_citation_index_state();
        let raw = crate::text::chars_of(raw_input);
        let cite_commands = crate::citation_engine::extract_cite_commands(raw.as_slice());
        if cite_commands.len() > 0 {
            return self.cite_paragraph(raw.as_slice(), &cite_commands);
        }
        let keys = crate::citation_engine::citation_keys_of(raw.as_slice());
        if keys.len() == 0 {
            return Err(owned("Citation input is empty. Please provide at least one key."));
        }
        let missing = self.collect_missing_keys(&keys);
        if missing.len() > 0 {
            return Err(missing_error(&missing));
        }
        let (resolved, newly_added_count) = self.resolve_indexes_for_keys(&keys);
        let citation_text = crate::citation_engine::compress_citation_indexes(resolved.as_slice());
        Ok(self.finalize_citation(citation_text, newly_added_count))
    }

    /// Replaces each `\cite{..}` command of a paragraph by its numbers.
    fn cite_paragraph(&mut self, raw: &[char], cmds: &Vec<CiteCommand>) -> (r: Result<
        crate::models::CiteResult,
        String,
    >)
        requires
            old(self).data().wf(),
            citations_wf(citations_of(old(self).data())),
            cmds@.len() > 0,
            crate::citation_engine::command_views(cmds@) == cite_commands_from(raw@, 0),
            forall|k: int| #![trigger cmds@[k]] 0 <= k < cmds@.len() ==> cmds@[k].start < cmds@[k].end <= raw.len(),
            forall|k: int| #![trigger cmds@[k]] 0 < k < cmds@.len() ==> cmds@[k - 1].end <= cmds@[k].start,
        ensures
            final(self).data().wf(),
            citations_wf(citations_of(final(self).data())),
            final(self).data().entries == old(self).data().entries,
            final(self).data().version == old(self).data().version,
            final(self).location() == old(self).location(),
            match cite_outcome(citations_of(old(self).data()), old(self).data().entries@.dom(), raw@) {
                Err(msg) => r matches Err(e) && e@ == msg && citations_of(final(self).data())
                    == citations_of(old(self).data()),
                Ok((c2, text, n)) => r matches Ok(res) && citations_of(final(self).data()) == c2
                    && res.citation_text@ == text && res.newly_added_count == n
                    && res.cited_references_text@ == references_text(
                    final(self).data().entries@,
                    c2,
                    OutputFormat::DefaultV1,
                ),
            },
    {
        let ghost cv = crate::citation_engine::command_views(cmds@);
        let mut k: usize = 0;
        while k < cmds.len()
            invariant
                k <= cmds@.len(),
                cv == crate::citation_engine::command_views(cmds@),
                cv == cite_commands_from(raw@, 0),
                forall|j: int| 0 <= j < k ==> (#[trigger] cv[j]).2.len() > 0,
                self.persisted == old(self).persisted,
                self.storage == old(self).storage,
                self.data().wf(),
                citations_wf(citations_of(self.data())),
            decreases cmds@.len() - k,
        {
            if cmds[k].keys.len() == 0 {
                assert(cv[k as int].2.len() == 0);
                assert(cite_commands_from(raw@, 0)[k as int].2.len() == 0);
                return Err(owned("Found empty \\cite{} command. Please provide at least one key."));
            }
            k += 1;
        }
        let mut requested: Vec<String> = Vec::new();
        let mut k: usize = 0;
        while k < cmds.len()
            invariant
                k <= cmds@.len(),
                cv == crate::citation_engine::command_views(cmds@),
                cv == cite_commands_from(raw@, 0),
                strs(requested@) == command_keys(cv.take(k as int)),
                self.persisted == old(self).persisted,
                self.storage == old(self).storage,
                self.data().wf(),
                citations_wf(citations_of(self.data())),
            decreases cmds@.len() - k,
        {
            assert(cv.take(k + 1).drop_last() =~= cv.take(k as int));
            assert(cv.take(k + 1).last() == cv[k as int]);
            let keys = &cmds[k].keys;
            let ghost before = strs(requested@);
            let mut q: usize = 0;
            while q < keys.len()
                invariant
                    q <= keys@.len(),
                    strs(requested@) == before + strs(keys@).take(q as int),
                decreases keys@.len() - q,
            {
                let key = keys[q].clone();
                let ghost prev = strs(requested@);
                requested.push(key);
                assert(strs(requested@) =~= prev.push(key@));
                assert(strs(keys@).take(q + 1) =~= strs(keys@).take(q as int).push(keys@[q as int]@));
                q += 1;
            }
            assert(strs(keys@).take(keys@.len() as int) =~= strs(keys@));
            k += 1;
        }
        assert(cv.take(cmds@.len() as int) =~= cv);
        let missing = self.collect_missing_keys(&requested);
        if missing.len() > 0 {
            return Err(missing_error(&missing));
        }
        let ghost c0 = citations_of(self.persisted);
        let total = requested.len();
        let mut rendered: Vec<char> = Vec::new();
        let mut cursor: usize = 0;
        let mut newly_added_count: usize = 0;
        let mut k: usize = 0;
        while k < cmds.len()
            invariant
                k <= cmds@.len(),
                self.data().wf(),
                citations_wf(citations_of(self.data())),
                self.persisted.entries == old(self).persisted.entries,
                self.persisted.version == old(self).persisted.version,
                self.storage == old(self).storage,
                cv == crate::citation_engine::command_views(cmds@),
                cv == cite_commands_from(raw@, 0),
                c0 == citations_of(old(self).persisted),
                forall|j: int| #![trigger cmds@[j]] 0 <= j < cmds@.len() ==> cmds@[j].start < cmds@[j].end <= raw.len(),
                forall|j: int| #![trigger cmds@[j]] 0 < j < cmds@.len() ==> cmds@[j - 1].end <= cmds@[j].start,
                k == 0 ==> cursor == 0,
                k > 0 ==> cursor == cmds@[k - 1].end,
                cursor <= raw.len(),
                render_commands(c0, raw@, cv, k as int) == (citations_of(self.persisted), rendered@, cursor as int, newly_added_count as nat),
                newly_added_count <= command_keys(cv.take(k as int)).len(),
                command_keys(cv).len() == total,
            decreases cmds@.len() - k,
        {
            assert(cv.take(k + 1).drop_last() =~= cv.take(k as int));
            assert(cv.take(k + 1).last() == cv[k as int]);
            let start = cmds[k].start;
            let end = cmds[k].end;
            assert(cursor <= start);
            crate::text::extend_range(&mut rendered, raw, cursor, start);
            let ghost ci = citations_of(self.persisted);
            proof {
                lemma_resolve_all(ci, strs(cmds@[k as int].keys@));
            }
            let (indexes, newly) = self.resolve_indexes_for_keys(&cmds[k].keys);
            proof {
                lemma_command_keys_prefix(cv, k as int);
            }
            newly_added_count = newly_added_count + newly;
            let text = crate::citation_engine::compress_citation_indexes(indexes.as_slice());
            let tc = crate::text::chars_of(text.as_str());
            crate::text::extend_chars(&mut rendered, tc.as_slice());
            cursor = end;
            k += 1;
        }
        assert(cv.take(cmds@.len() as int) =~= cv);
        crate::text::extend_range(&mut rendered, raw, cursor, raw.len());
        let citation_text = crate::text::string_of(rendered.as_slice());
        Ok(self.finalize_citation(citation_text, newly_added_count))
    }
}

/// The keys of the first commands are a prefix of the keys of all commands.
proof fn lemma_command_keys_prefix(cv: Seq<(int, int, Seq<Seq<char>>)>, k: int)
    requires
        0 <= k < cv.len(),
    ensures
        command_keys(cv.take(k + 1)) == command_keys(cv.take(k)) + cv[k].2,
        command_keys(cv.take(k + 1)).len() <= command_keys(cv).len(),
    decreases cv.len() - k,
{
    assert(cv.take(k + 1).drop_last() =~= cv.take(k));
    assert(cv.take(k + 1).last() == cv[k]);
    if k + 1 < cv.len() {
        lemma_command_keys_prefix(cv, k + 1);
    } else {
        assert(cv.take(k + 1) =~= cv);
    }
}

} // verus!

verus! {

/// Replacing commands one after another keeps the numbering repaired and
/// every number given, and numbers every key of the commands handled.
proof fn lemma_render_commands(c: Citations, raw: Seq<char>, cmds: Seq<(int, int, Seq<Seq<char>>)>, k: int)
    requires
        citations_wf(c),
        0 <= k <= cmds.len(),
    ensures
        citations_wf(render_commands(c, raw, cmds, k).0),
        render_commands(c, raw, cmds, k).0.start == c.start,
        c.order.is_prefix_of(render_commands(c, raw, cmds, k).0.order),
        render_commands(c, raw, cmds, k).0.order.len() == c.order.len() + render_commands(c, raw, cmds, k).3,
        forall|key: Seq<char>| #[trigger] c.index.dom().contains(key) ==> render_commands(c, raw, cmds, k).0.index.dom().contains(key)
            && render_commands(c, raw, cmds, k).0.index[key] == c.index[key],
        forall|key: Seq<char>| #[trigger] command_keys(cmds.take(k)).contains(key) ==> render_commands(c, raw, cmds, k).0.index.dom().contains(key),
    decreases k,
{
    if k > 0 {
        lemma_render_commands(c, raw, cmds, k - 1);
        let c1 = render_commands(c, raw, cmds, k - 1).0;
        let keys = cmds[k - 1].2;
        lemma_resolve_all(c1, keys);
        let c2 = render_commands(c, raw, cmds, k).0;
        assert(cmds.take(k).drop_last() =~= cmds.take(k - 1));
        assert(cmds.take(k).last() == cmds[k - 1]);
        assert forall|key: Seq<char>| #[trigger] command_keys(cmds.take(k)).contains(key) implies c2.index.dom().contains(key) by {
            let all = command_keys(cmds.take(k));
            let j = choose|j: int| 0 <= j < all.len() && all[j] == key;
            let before = command_keys(cmds.take(k - 1));
            if j < before.len() {
                assert(before[j] == key);
                assert(before.contains(key));
            } else {
                assert(keys[j - before.len()] == key);
            }
        }
        assert(c2.order.subrange(0, c.order.len() as int) =~= c.order) by {
            assert(c1.order.subrange(0, c.order.len() as int) =~= c.order);
            assert(c2.order.subrange(0, c1.order.len() as int) =~= c1.order);
        }
    }
}

/// A successful citation request keeps every number already given, keeps the
/// order of earlier citations as a prefix, appends exactly as many keys as it
/// reports as new, and gives every requested key a number; the numbering stays
/// repaired.
pub proof fn law_cite_keeps_numbers(c: Citations, present: Set<Seq<char>>, raw: Seq<char>)
    requires
        citations_wf(c),
        cite_outcome(c, present, raw) is Ok,
    ensures
        ({
            let c2 = cite_outcome(c, present, raw)->Ok_0.0;
            let n = cite_outcome(c, present, raw)->Ok_0.2;
            let requested = if cite_commands_from(raw, 0).len() > 0 {
                command_keys(cite_commands_from(raw, 0))
            } else {
                citation_keys(raw)
            };
            &&& citations_wf(c2)
            &&& c2.start == c.start
            &&& c.order.is_prefix_of(c2.order)
            &&& c2.order.len() == c.order.len() + n
            &&& forall|k: Seq<char>| #[trigger] c.index.dom().contains(k) ==> c2.index.dom().contains(k)
                && c2.index[k] == c.index[k]
            &&& forall|k: Seq<char>| #[trigger] requested.contains(k) ==> c2.index.dom().contains(k)
        }),
{
    let cmds = cite_commands_from(raw, 0);
    if cmds.len() > 0 {
        lemma_render_commands(c, raw, cmds, cmds.len() as int);
        assert(cmds.take(cmds.len() as int) =~= cmds);
    } else {
        let keys = citation_keys(raw);
        lemma_resolve_all(c, keys);
        let c2 = resolve_all(c, keys).0;
        assert forall|k: Seq<char>| #[trigger] keys.contains(k) implies c2.index.dom().contains(k) by {
            let j = choose|j: int| 0 <= j < keys.len() && keys[j] == k;
            assert(c2.index.dom().contains(keys[j]));
        }
    }
}

/// `b` has every number that `a` has.
pub open spec fn keeps_numbers(a: Citations, b: Citations) -> bool {
    forall|k: Seq<char>| #[trigger] a.index.dom().contains(k) ==> b.index.dom().contains(k) && b.index[k]
        == a.index[k]
}

/// Keys that all have numbers change nothing and get their numbers.
proof fn lemma_resolve_all_known(c: Citations, keys: Seq<Seq<char>>)
    requires
        citations_wf(c),
        forall|j: int| 0 <= j < keys.len() ==> c.index.dom().contains(#[trigger] keys[j]),
    ensures
        resolve_all(c, keys).0 == c,
        resolve_all(c, keys).2 == 0,
        resolve_all(c, keys).1.len() == keys.len(),
        forall|j: int| 0 <= j < keys.len() ==> resolve_all(c, keys).1[j] == c.index[#[trigger] keys[j]],
    decreases keys.len(),
{
    if keys.len() > 0 {
        let p = keys.drop_last();
        assert forall|j: int| 0 <= j < p.len() implies c.index.dom().contains(#[trigger] p[j]) by {
            assert(p[j] == keys[j]);
        }
        lemma_resolve_all_known(c, p);
        let key = keys.last();
        assert(c.index.dom().contains(keys[keys.len() - 1]));
        assert(c.order.to_set().contains(key));
        assert(c.order.contains(key));
        assert(resolve_step(c, key).0 == c);
        assert forall|j: int| 0 <= j < keys.len() implies resolve_all(c, keys).1[j] == c.index[#[trigger] keys[j]] by {
            if j < keys.len() - 1 {
                assert(p[j] == keys[j]);
            }
        }
    }
}

/// Resolving keys again in a state that kept the numbers of the first run
/// changes nothing and gives the same numbers.
proof fn lemma_resolve_all_again(c0: Citations, keys: Seq<Seq<char>>, c2: Citations)
    requires
        citations_wf(c0),
        citations_wf(c2),
        keeps_numbers(resolve_all(c0, keys).0, c2),
    ensures
        resolve_all(c2, keys) == (c2, resolve_all(c0, keys).1, 0nat),
{
    lemma_resolve_all(c0, keys);
    let c1 = resolve_all(c0, keys).0;
    assert forall|j: int| 0 <= j < keys.len() implies c2.index.dom().contains(#[trigger] keys[j]) by {
        assert(c1.index.dom().contains(keys[j]));
    }
    lemma_resolve_all_known(c2, keys);
    assert forall|j: int| 0 <= j < keys.len() implies resolve_all(c2, keys).1[j] == resolve_all(c0, keys).1[j] by {
        assert(c1.index.dom().contains(keys[j]));
        assert(c2.index[keys[j]] == c1.index[keys[j]]);
    }
    assert(resolve_all(c2, keys).1 =~= resolve_all(c0, keys).1);
}

/// Rendering the commands again in a state that kept the numbers of the
/// first run changes nothing and gives the same text.
proof fn lemma_render_again(
    c0: Citations,
    raw: Seq<char>,
    cmds: Seq<(int, int, Seq<Seq<char>>)>,
    k: int,
    c2: Citations,
)
    requires
        citations_wf(c0),
        citations_wf(c2),
        0 <= k <= cmds.len(),
        keeps_numbers(render_commands(c0, raw, cmds, k).0, c2),
    ensures
        render_commands(c2, raw, cmds, k) == (
            c2,
            render_commands(c0, raw, cmds, k).1,
            render_commands(c0, raw, cmds, k).2,
            0nat,
        ),
    decreases k,
{
    if k > 0 {
        lemma_render_commands(c0, raw, cmds, k - 1);
        let c1 = render_commands(c0, raw, cmds, k - 1).0;
        let keys = cmds[k - 1].2;
        lemma_resolve_all(c1, keys);
        let ca = resolve_all(c1, keys).0;
        assert(ca == render_commands(c0, raw, cmds, k).0);
        assert forall|key: Seq<char>| #[trigger] c1.index.dom().contains(key) implies c2.index.dom().contains(key)
            && c2.index[key] == c1.index[key] by {
            assert(ca.index.dom().contains(key));
        }
        lemma_render_again(c0, raw, cmds, k - 1, c2);
        lemma_resolve_all_again(c1, keys, c2);
    }
}

/// Citing the same request again right after it succeeded changes nothing:
/// the state is already repaired, the same text comes back and no key is new
/// (so the reference list is the same too).
pub proof fn law_repeated_cite_changes_nothing(c: Citations, present: Set<Seq<char>>, raw: Seq<char>)
    requires
        citations_wf(c),
        cite_outcome(c, present, raw) is Ok,
    ensures
        ({
            let c2 = cite_outcome(c, present, raw)->Ok_0.0;
            let text = cite_outcome(c, present, raw)->Ok_0.1;
            &&& normalized(c2) == c2
            &&& cite_outcome(normalized(c2), present, raw) == Ok::<(Citations, Seq<char>, nat), Seq<char>>(
                (c2, text, 0nat),
            )
        }),
{
    law_cite_keeps_numbers(c, present, raw);
    let c2 = cite_outcome(c, present, raw)->Ok_0.0;
    lemma_normalized_fixed(c2);
    let cmds = cite_commands_from(raw, 0);
    if cmds.len() > 0 {
        lemma_render_again(c, raw, cmds, cmds.len() as int, c2);
    } else {
        lemma_resolve_all_again(c, citation_keys(raw), c2);
    }
}

/// The keys of the first `k` commands begin the keys of all commands.
proof fn lemma_command_keys_is_prefix(cv: Seq<(int, int, Seq<Seq<char>>)>, k: int)
    requires
        0 <= k <= cv.len(),
    ensures
        command_keys(cv.take(k)).len() <= command_keys(cv).len(),
        forall|j: int| 0 <= j < command_keys(cv.take(k)).len() ==> #[trigger] command_keys(cv.take(k))[j]
            == command_keys(cv)[j],
    decreases cv.len() - k,
{
    if k == cv.len() {
        assert(cv.take(k) =~= cv);
    } else {
        lemma_command_keys_prefix(cv, k);
        lemma_command_keys_is_prefix(cv, k + 1);
        assert forall|j: int| 0 <= j < command_keys(cv.take(k)).len() implies #[trigger] command_keys(
            cv.take(k),
        )[j] == command_keys(cv)[j] by {
            assert(command_keys(cv.take(k + 1))[j] == command_keys(cv.take(k))[j]);
        }
    }
}

/// With nothing missing, every key is in `present`.
proof fn lemma_no_missing_keys(present: Set<Seq<char>>, keys: Seq<Seq<char>>)
    requires
        missing_keys(present, keys).len() == 0,
    ensures
        forall|j: int| 0 <= j < keys.len() ==> present.contains(#[trigger] keys[j]),
    decreases keys.len(),
{
    if keys.len() > 0 {
        let p = keys.drop_last();
        let m = missing_keys(present, p);
        if !(present.contains(keys.last()) || m.contains(keys.last())) {
            assert(missing_keys(present, keys) == m.push(keys.last()));
        }
        assert(m.len() == 0);
        lemma_no_missing_keys(present, p);
        assert forall|j: int| 0 <= j < keys.len() implies present.contains(#[trigger] keys[j]) by {
            if j < keys.len() - 1 {
                assert(p[j] == keys[j]);
            }
        }
    }
}

/// A citation request succeeds only if every key it names is in the library:
/// every key of every `\cite{..}` command of a paragraph, or every key of a
/// plain key list.
pub proof fn law_cite_needs_every_key(c: Citations, present: Set<Seq<char>>, raw: Seq<char>)
    requires
        cite_outcome(c, present, raw) is Ok,
    ensures
        cite_commands_from(raw, 0).len() > 0 ==> forall|i: int, j: int|
            0 <= i < cite_commands_from(raw, 0).len() && 0 <= j < cite_commands_from(raw, 0)[i].2.len()
                ==> present.contains(#[trigger] cite_commands_from(raw, 0)[i].2[j]),
        cite_commands_from(raw, 0).len() == 0 ==> forall|j: int|
            0 <= j < citation_keys(raw).len() ==> present.contains(#[trigger] citation_keys(raw)[j]),
{
    let cmds = cite_commands_from(raw, 0);
    if cmds.len() > 0 {
        let all = command_keys(cmds);
        lemma_no_missing_keys(present, all);
        assert forall|i: int, j: int| 0 <= i < cmds.len() && 0 <= j < cmds[i].2.len() implies present.contains(
            #[trigger] cmds[i].2[j],
        ) by {
            lemma_command_keys_prefix(cmds, i);
            let before = command_keys(cmds.take(i));
            assert(command_keys(cmds.take(i + 1)) == before + cmds[i].2);
            assert(command_keys(cmds.take(i + 1))[before.len() + j] == cmds[i].2[j]);
            lemma_command_keys_is_prefix(cmds, i + 1);
            assert(all[before.len() + j] == cmds[i].2[j]);
        }
    } else {
        lemma_no_missing_keys(present, citation_keys(raw));
    }
}

/// In a repaired state, a failed citation request leaves the numbering as it was.
pub proof fn law_failed_cite_changes_nothing(c: Citations, present: Set<Seq<char>>, raw: Seq<char>)
    requires
        citations_wf(c),
        cite_outcome(normalized(c), present, raw) is Err,
    ensures
        normalized(c) == c,
{
    lemma_normalized_fixed(c);
}

} // verus!

verus! {

// ---------------------------------------------------------------------------
// Import, lookup, clearing and the next number
// ---------------------------------------------------------------------------

/// The library after importing `entries` in turn (a later entry with the same
/// key replaces an earlier one), with the counts of new and replaced keys.
pub open spec fn import_fold(m: Map<Seq<char>, LibraryEntry>, entries: Seq<LibraryEntry>) -> (
    Map<Seq<char>, LibraryEntry>,
    nat,
    nat,
)
    decreases entries.len(),
{
    if entries.len() == 0 {
        (m, 0, 0)
    } else {
        let (m1, n, o) = import_fold(m, entries.drop_last());
        let e = entries.last();
        if m1.dom().contains(e.key@) {
            (m1.insert(e.key@, e), n, o + 1)
        } else {
            (m1.insert(e.key@, e), n + 1, o)
        }
    }
}

/// The keys of `entries`.
pub open spec fn entry_keys(entries: Seq<LibraryEntry>) -> Set<Seq<char>> {
    Set::new(|k: Seq<char>| exists|i: int| 0 <= i < entries.len() && (#[trigger] entries[i]).key@ == k)
}

/// Importing entries by key: every imported entry counts either as new or as
/// replacing an earlier one; afterwards the library holds the old keys and
/// the imported ones, the last imported entry under each key, and every old
/// entry whose key was not imported unchanged.
pub proof fn law_import_by_key(m0: Map<Seq<char>, LibraryEntry>, entries: Seq<LibraryEntry>)
    ensures
        ({
            let (m, n, o) = import_fold(m0, entries);
            &&& n + o == entries.len()
            &&& m.dom() == m0.dom().union(entry_keys(entries))
            &&& forall|i: int| 0 <= i < entries.len() && (forall|j: int| i < j < entries.len()
                ==> (#[trigger] entries[j]).key@ != entries[i].key@) ==> m[(#[trigger] entries[i]).key@]
                == entries[i]
            &&& forall|k: Seq<char>| #[trigger] m0.dom().contains(k) && !entry_keys(entries).contains(k)
                ==> m[k] == m0[k]
        }),
    decreases entries.len(),
{
    if entries.len() > 0 {
        let p = entries.drop_last();
        law_import_by_key(m0, p);
        let (m1, n1, o1) = import_fold(m0, p);
        let e = entries.last();
        let (m, n, o) = import_fold(m0, entries);
        assert(m == m1.insert(e.key@, e));
        assert(entry_keys(entries) =~= entry_keys(p).insert(e.key@)) by {
            assert forall|k: Seq<char>| entry_keys(entries).contains(k) implies #[trigger] entry_keys(
                p,
            ).insert(e.key@).contains(k) by {
                let i = choose|i: int| 0 <= i < entries.len() && (#[trigger] entries[i]).key@ == k;
                if i < entries.len() - 1 {
                    assert(p[i] == entries[i]);
                }
            }
            assert forall|k: Seq<char>| entry_keys(p).insert(e.key@).contains(k) implies #[trigger] entry_keys(
                entries,
            ).contains(k) by {
                if k == e.key@ {
                    assert(entries[entries.len() - 1].key@ == k);
                } else {
                    let i = choose|i: int| 0 <= i < p.len() && (#[trigger] p[i]).key@ == k;
                    assert(entries[i] == p[i]);
                }
            }
        }
        assert(m.dom() =~= m0.dom().union(entry_keys(entries)));
        assert forall|i: int| 0 <= i < entries.len() && (forall|j: int| i < j < entries.len()
            ==> (#[trigger] entries[j]).key@ != entries[i].key@) implies m[(#[trigger] entries[i]).key@]
            == entries[i] by {
            if i < entries.len() - 1 {
                assert(entries[entries.len() - 1].key@ != entries[i].key@);
                assert(p[i] == entries[i]);
                assert forall|j: int| i < j < p.len() implies (#[trigger] p[j]).key@ != p[i].key@ by {
                    assert(p[j] == entries[j]);
                }
            }
        }
        assert forall|k: Seq<char>| #[trigger] m0.dom().contains(k) && !entry_keys(entries).contains(k)
            implies m[k] == m0[k] by {
            assert(!entry_keys(p).contains(k));
            assert(k != e.key@);
        }
    }
}

/// The summary line of an import.
pub open spec fn import_message(imported: nat, new_count: nat, overwritten: nat) -> Seq<char> {
    "Import finished: "@ + decimal(imported) + " processed ("@ + decimal(new_count) + " new, "@
        + decimal(overwritten) + " overwritten)."@
}

/// The name shown for an entry without authors.
pub open spec fn unknown_authors() -> Seq<char> {
    "\u{672a}\u{77e5}\u{4f5c}\u{8005}"@
}

/// Braces turned into spaces and whitespace collapsed.
pub open spec fn inline_text(s: Seq<char>) -> Seq<char> {
    crate::text::collapse_ws(crate::text::braces_to_spaces(s))
}

/// Authors with " and " written as ", ".
pub open spec fn authors_inline(s: Seq<char>) -> Seq<char> {
    crate::text::replace(inline_text(s), " and "@, ", "@)
}

/// Key, title and authors of the entry under the trimmed `key`, if there is one.
pub open spec fn lookup(entries: Map<Seq<char>, LibraryEntry>, key: Seq<char>) -> Option<
    (Seq<char>, Seq<char>, Seq<char>),
> {
    let k = crate::text::trim(key);
    if k.len() == 0 || !entries.dom().contains(k) {
        None
    } else {
        let e = entries[k];
        let title = match e.field("title"@) {
            Some(v) => if inline_text(v).len() > 0 {
                inline_text(v)
            } else {
                e.key@
            },
            None => e.key@,
        };
        let raw_authors = match e.field("author"@) {
            Some(v) => Some(v),
            None => e.field("editor"@),
        };
        let authors = match raw_authors {
            Some(v) => if authors_inline(v).len() > 0 {
                authors_inline(v)
            } else {
                unknown_authors()
            },
            None => unknown_authors(),
        };
        Some((e.key@, title, authors))
    }
}

/// The outcome of setting the next number: the new numbering, or the error.
/// Without a value the next number becomes one more than the largest number given.
pub open spec fn next_index_outcome(c: Citations, next_index: Option<usize>) -> Result<Citations, Seq<char>> {
    let mx = map_max(c.index);
    let resolved = match next_index {
        Some(v) => v,
        None => if sat_add(mx, 1) < 1 {
            1
        } else {
            sat_add(mx, 1)
        },
    };
    if resolved == 0 {
        Err("Next citation index must be >= 1"@)
    } else if resolved <= mx {
        Err("Next citation index must be greater than current maximum index ["@ + decimal(mx as nat)
            + "]"@)
    } else {
        Ok(
            Citations {
                next: resolved,
                start: if c.order.len() == 0 {
                    resolved
                } else {
                    c.start
                },
                ..c
            },
        )
    }
}

/// A next number that was accepted is the number the next new key gets: a
/// request for one key that is in the library but not yet cited is answered
/// with that number. (It does not hold when every number given is 0, keys are
/// cited, the start number is above 1 and the accepted next number is 1:
/// repairing the state then moves the next number up to the start number.)
pub proof fn law_next_index_applies(c: Citations, next: usize, present: Set<Seq<char>>, raw: Seq<char>)
    requires
        citations_wf(c),
        next_index_outcome(c, Some(next)) is Ok,
        !(map_max(c.index) == 0 && c.order.len() > 0 && c.start > 1 && next == 1),
        cite_commands_from(raw, 0).len() == 0,
        citation_keys(raw).len() == 1,
        present.contains(citation_keys(raw)[0]),
        !c.index.dom().contains(citation_keys(raw)[0]),
    ensures
        ({
            let c2 = next_index_outcome(c, Some(next))->Ok_0;
            &&& cite_outcome(normalized(c2), present, raw) is Ok
            &&& cite_outcome(normalized(c2), present, raw)->Ok_0.1 == compressed(seq![next])
        }),
{
    let c2 = next_index_outcome(c, Some(next))->Ok_0;
    let keys = citation_keys(raw);
    let k = keys[0];
    assert(c2.index == c.index);
    assert(next > map_max(c.index));
    assert(sat_add(map_max(c.index), 1) <= next);
    assert(citations_wf(c2));
    lemma_normalized_fixed(c2);
    assert(keys.drop_last() =~= Seq::<Seq<char>>::empty());
    assert(keys.last() == k);
    assert(missing_keys(present, keys.drop_last()) =~= Seq::<Seq<char>>::empty());
    assert(missing_keys(present, keys).len() == 0);
    let r = resolve_all(c2, keys);
    assert(resolve_all(c2, keys.drop_last()) == (c2, Seq::<usize>::empty(), 0nat));
    assert(resolve_step(c2, k).1 == next);
    assert(r.1 =~= seq![next]);
}

/// The numbering left by clearing the citations.
pub open spec fn cleared_citations() -> Citations {
    Citations { order: Seq::empty(), index: Map::empty(), next: 1, start: 1 }
}

/// After the citations are cleared, numbering starts again at 1: a request
/// for one key that is in the library is answered with `[1]`.
pub proof fn law_cleared_numbering_starts_at_one(present: Set<Seq<char>>, raw: Seq<char>)
    requires
        cite_commands_from(raw, 0).len() == 0,
        citation_keys(raw).len() == 1,
        present.contains(citation_keys(raw)[0]),
    ensures
        cite_outcome(normalized(cleared_citations()), present, raw) is Ok,
        cite_outcome(normalized(cleared_citations()), present, raw)->Ok_0.1 == compressed(seq![1usize]),
{
    let c = cleared_citations();
    let m = Map::<Seq<char>, usize>::empty();
    assert(m.dom() =~= Set::empty());
    lemma_max_exists(m);
    assert(is_max_of(m, 0));
    lemma_max_unique(m, 0, map_max(m));
    assert(Seq::<Seq<char>>::empty().to_set() =~= Set::empty());
    assert(citations_wf(c));
    lemma_normalized_fixed(c);
    let keys = citation_keys(raw);
    let k = keys[0];
    assert(keys.drop_last() =~= Seq::<Seq<char>>::empty());
    assert(keys.last() == k);
    assert(missing_keys(present, keys.drop_last()) =~= Seq::<Seq<char>>::empty());
    assert(missing_keys(present, keys).len() == 0);
    assert(resolve_all(c, keys.drop_last()) == (c, Seq::<usize>::empty(), 0nat));
    assert(resolve_step(c, k).1 == 1);
    assert(resolve_all(c, keys).1 =~= seq![1usize]);
}

impl AppState {
    /// The state with a loaded `persisted` value, its numbering repaired
    /// (loading and saving are left to the caller).
    pub fn from_storage(storage: Storage, persisted: PersistedState) -> (s: Self)
        requires
            persisted.wf(),
            normalize_fits(citations_of(persisted)),
        ensures
            s.wf(),
            citations_wf(citations_of(s.data())),
            citations_of(s.data()) == normalized(citations_of(persisted)),
            s.data().entries == persisted.entries,
            s.data().version == persisted.version,
            s.location() == storage,
    {
        let ghost loaded = citations_of(persisted);
        let mut persisted = persisted;
        normalize_persisted_state(&mut persisted);
        let s = AppState { storage, persisted };
        proof {
            lemma_normalized_wf(loaded);
            lemma_wf_fits(citations_of(s.persisted));
        }
        s
    }
}

} // verus!

verus! {

impl AppState {
    /// What the user interface shows.
    pub fn snapshot(&self) -> (r: crate::models::AppSnapshot)
        requires
            self.data().wf(),
        ensures
            r.total_entries == self.data().entries@.dom().len(),
            strs(r.imported_keys@) == self.data().entries.keys(),
            strs(r.citation_order@) == strs(self.data().citation_order@),
    {
        crate::models::AppSnapshot::from_persisted(&self.persisted)
    }

    /// The number the next new key will get, as stored.
    pub fn next_citation_index(&self) -> (r: usize)
        ensures
            r == self.data().next_citation_index,
    {
        self.persisted.next_citation_index
    }

    /// The location of the state file as text.
    pub fn storage_path(&self) -> (r: String)
        ensures
            r@ == crate::storage::path_display(self.location().spec_path()),
    {
        self.storage.display_text()
    }

    /// Key, title and authors of the entry under `key`, ignoring surrounding
    /// whitespace.
    pub fn find_entry_by_key(&self, key: &str) -> (r: Option<crate::models::EntryLookupResult>)
        requires
            self.data().wf(),
        ensures
            match lookup(self.data().entries@, key@) {
                None => r is None,
                Some((k, title, authors)) => r matches Some(found) && found.key@ == k
                    && found.title@ == title && found.authors@ == authors,
            },
    {
        let kc = crate::text::chars_of(key);
        let normalized_key = crate::text::trim_chars(kc.as_slice());
        if normalized_key.len() == 0 {
            return None;
        }
        let nk = crate::text::string_of(normalized_key.as_slice());
        let entry = match self.persisted.entries.get(&nk) {
            Some(e) => e,
            None => {
                return None;
            },
        };
        assert(entry.wf());
        let title = match entry.fields.get(&owned("title")) {
            Some(v) => {
                let t = normalize_inline_text(v);
                if t.len() > 0 {
                    t
                } else {
                    crate::text::chars_of(entry.key.as_str())
                }
            },
            None => crate::text::chars_of(entry.key.as_str()),
        };
        let raw_authors = match entry.fields.get(&owned("author")) {
            Some(v) => Some(v),
            None => entry.fields.get(&owned("editor")),
        };
        let authors = match raw_authors {
            Some(v) => {
                let a = normalize_authors(v);
                if a.len() > 0 {
                    a
                } else {
                    crate::text::lit("\u{672a}\u{77e5}\u{4f5c}\u{8005}")
                }
            },
            None => crate::text::lit("\u{672a}\u{77e5}\u{4f5c}\u{8005}"),
        };
        Some(
            crate::models::EntryLookupResult {
                key: entry.key.clone(),
                title: crate::text::string_of(title.as_slice()),
                authors: crate::text::string_of(authors.as_slice()),
            },
        )
    }

    /// Adds `entries` to the library, replacing entries with the same key
    /// (saving is left to the caller).
    pub fn import_entries(&mut self, entries: Vec<LibraryEntry>) -> (r: crate::models::ImportResult)
        requires
            old(self).wf(),
            forall|i: int| 0 <= i < entries@.len() ==> (#[trigger] entries@[i]).wf(),
        ensures
            final(self).wf(),
            citations_of(final(self).data()) == citations_of(old(self).data()),
            final(self).data().version == old(self).data().version,
            final(self).location() == old(self).location(),
            ({
                let (m, n, o) = import_fold(old(self).data().entries@, entries@);
                &&& final(self).data().entries@ == m
                &&& r.new_count == n
                &&& r.overwritten_count == o
                &&& r.total == entries@.len()
                &&& r.imported == n + o
                &&& r.failed == 0
                &&& r.message@ == import_message(n + o, n, o)
            }),
    {
        let total = entries.len();
        let ghost es = entries@;
        let ghost m0 = self.persisted.entries@;
        let mut new_count: usize = 0;
        let mut overwritten_count: usize = 0;
        for entry in it: entries
            invariant
                es == it.seq(),
                self.persisted.wf(),
                normalize_fits(citations_of(self.persisted)),
                citations_of(self.persisted) == citations_of(old(self).persisted),
                self.persisted.version == old(self).persisted.version,
                self.storage == old(self).storage,
                m0 == old(self).persisted.entries@,
                forall|j: int| 0 <= j < es.len() ==> (#[trigger] es[j]).wf(),
                import_fold(m0, es.take(it.index() as int)) == (self.persisted.entries@, new_count as nat, overwritten_count as nat),
                new_count + overwritten_count == it.index(),
                it.index() <= es.len(),
                total == es.len(),
        {
            assert(es.take(it.index() + 1).drop_last() =~= es.take(it.index() as int));
            assert(es.take(it.index() + 1).last() == entry);
            let key = entry.key.clone();
            let was_present = self.persisted.entries.insert(key, entry);
            if was_present {
                overwritten_count += 1;
            } else {
                new_count += 1;
            }
            proof {
                assert forall|k: Seq<char>| #[trigger] self.persisted.entries@.dom().contains(k) implies self.persisted.entries@[k].wf() by {
                    if k != entry.key@ {
                        assert(old(self).persisted.entries@.dom().contains(k) || import_fold(m0, es.take(it.index() as int)).0.dom().contains(k));
                    }
                }
            }
        }
        assert(es.take(es.len() as int) =~= es);
        let imported = new_count + overwritten_count;
        let failed = total.saturating_sub(imported);
        let mut message = crate::text::lit("Import finished: ");
        crate::text::push_decimal(&mut message, imported);
        let part = crate::text::lit(" processed (");
        crate::text::extend_chars(&mut message, part.as_slice());
        crate::text::push_decimal(&mut message, new_count);
        let part = crate::text::lit(" new, ");
        crate::text::extend_chars(&mut message, part.as_slice());
        crate::text::push_decimal(&mut message, overwritten_count);
        let part = crate::text::lit(" overwritten).");
        crate::text::extend_chars(&mut message, part.as_slice());
        proof {
            assert(message@ =~= import_message(imported as nat, new_count as nat, overwritten_count as nat));
        }
        crate::models::ImportResult {
            total,
            imported,
            new_count,
            overwritten_count,
            failed,
            message: crate::text::string_of(message.as_slice()),
        }
    }
}

/// Braces turned into spaces and whitespace collapsed.
fn normalize_inline_text(raw: &String) -> (r: Vec<char>)
    ensures
        r@ == inline_text(raw@),
{
    let c = crate::text::chars_of(raw.as_str());
    let spaced = crate::text::braces_to_space_chars(c.as_slice());
    crate::text::collapse_whitespace(spaced.as_slice())
}

/// Authors with " and " written as ", ".
fn normalize_authors(raw: &String) -> (r: Vec<char>)
    ensures
        r@ == authors_inline(raw@),
{
    let inline = normalize_inline_text(raw);
    let and_sep = crate::text::lit(" and ");
    let comma = crate::text::lit(", ");
    proof {
        reveal_strlit(" and ");
    }
    crate::text::replace_chars(inline.as_slice(), and_sep.as_slice(), comma.as_slice())
}

} // verus!

verus! {

impl AppState {
    /// Removes every entry and every citation (saving is left to the caller).
    pub fn clear_library(&mut self)
        requires
            old(self).wf(),
        ensures
            final(self).wf(),
            final(self).data().entries@ == Map::<Seq<char>, LibraryEntry>::empty(),
            final(self).data().entries.keys().len() == 0,
            final(self).data().citation_order@.len() == 0,
            final(self).data().citation_index_by_key@ == Map::<Seq<char>, usize>::empty(),
            final(self).data().next_citation_index == 1,
            final(self).data().citation_start_index == 1,
            citations_of(final(self).data()) == cleared_citations(),
            final(self).data().version == old(self).data().version,
            final(self).location() == old(self).location(),
    {
        self.persisted.entries.clear();
        self.persisted.citation_order.clear();
        self.persisted.citation_index_by_key.clear();
        self.persisted.next_citation_index = 1;
        self.persisted.citation_start_index = 1;
        proof {
            assert(citations_of(self.persisted).order =~= Seq::<Seq<char>>::empty());
        }
    }

    /// Removes every citation and restarts numbering at 1 (saving is left to
    /// the caller).
    pub fn clear_citations(&mut self)
        requires
            old(self).wf(),
        ensures
            final(self).wf(),
            final(self).data().entries == old(self).data().entries,
            final(self).data().citation_order@.len() == 0,
            final(self).data().citation_index_by_key@ == Map::<Seq<char>, usize>::empty(),
            final(self).data().next_citation_index == 1,
            final(self).data().citation_start_index == 1,
            citations_of(final(self).data()) == cleared_citations(),
            final(self).data().version == old(self).data().version,
            final(self).location() == old(self).location(),
    {
        self.persisted.citation_order.clear();
        self.persisted.citation_index_by_key.clear();
        self.persisted.next_citation_index = 1;
        self.persisted.citation_start_index = 1;
        proof {
            assert(citations_of(self.persisted).order =~= Seq::<Seq<char>>::empty());
        }
    }

    /// Sets the number the next new key gets:
    /// it must be above every number given; without a value it becomes one
    /// more than the largest. With no citations yet it also becomes the start
    /// number. Saving is left to the caller.
    pub fn set_next_citation_index(&mut self, next_index: Option<usize>) -> (r: Result<(), String>)
        requires
            old(self).wf(),
        ensures
            final(self).wf(),
            final(self).data().entries == old(self).data().entries,
            final(self).data().version == old(self).data().version,
            final(self).location() == old(self).location(),
            match next_index_outcome(normalized(citations_of(old(self).data())), next_index) {
                Err(msg) => r matches Err(e) && e@ == msg && citations_of(final(self).data())
                    == normalized(citations_of(old(self).data())),
                Ok(c2) => r is Ok && citations_of(final(self).data()) == c2,
            },
    {
        self.ensure_citation_index_state();
        let max_assigned_now = max_assigned(&self.persisted.citation_index_by_key);
        let resolved_next = match next_index {
            Some(value) => value,
            None => {
                let v = max_assigned_now.saturating_add(1);
                if v < 1 {
                    1
                } else {
                    v
                }
            },
        };
        if resolved_next == 0 {
            return Err(owned("Next citation index must be >= 1"));
        }
        if resolved_next <= max_assigned_now {
            let mut msg = crate::text::lit("Next citation index must be greater than current maximum index [");
            crate::text::push_decimal(&mut msg, max_assigned_now);
            msg.push(']');
            proof {
                reveal_strlit("]");
                assert(msg@ =~= "Next citation index must be greater than current maximum index ["@
                    + decimal(max_assigned_now as nat) + "]"@);
            }
            return Err(crate::text::string_of(msg.as_slice()));
        }
        self.persisted.next_citation_index = resolved_next;
        if self.persisted.citation_order.len() == 0 {
            self.persisted.citation_start_index = resolved_next;
        }
        proof {
            let c = citations_of(self.persisted);
            lemma_dedup(c.order);
            if c.order.len() > 0 {
                assert(c.order.to_set().contains(c.order[0]));
                assert(c.index.dom().contains(c.order[0]));
            }
        }
        Ok(())
    }
}

} // verus!
