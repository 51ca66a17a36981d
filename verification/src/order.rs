//! Stable sorting, as an order of positions.
use crate::text;
use crate::text::is_before;
use vstd::prelude::*;

verus! {

/// Lexicographic order of integer triples.
pub open spec fn lt3(a: (i64, i64, i64), b: (i64, i64, i64)) -> bool {
    a.0 < b.0 || (a.0 == b.0 && (a.1 < b.1 || (a.1 == b.1 && a.2 < b.2)))
}

pub fn is_lt3(a: (i64, i64, i64), b: (i64, i64, i64)) -> (r: bool)
    ensures
        r == lt3(a, b),
{
    a.0 < b.0 || (a.0 == b.0 && (a.1 < b.1 || (a.1 == b.1 && a.2 < b.2)))
}

/// Where position `k` goes among the first `pos` entries of a sorted order: behind every entry that
/// it does not precede.
pub open spec fn slot(less: spec_fn(int, int) -> bool, ord: Seq<int>, k: int, pos: int) -> int
    decreases pos,
{
    if pos <= 0 {
        0
    } else if less(k, ord[pos - 1]) {
        slot(less, ord, k, pos - 1)
    } else {
        pos
    }
}

/// The positions `0..n` in ascending order of `less`; positions of equal rank keep their order.
pub open spec fn ranked(less: spec_fn(int, int) -> bool, n: int) -> Seq<int>
    decreases n,
{
    if n <= 0 {
        Seq::empty()
    } else {
        let o = ranked(less, n - 1);
        o.insert(slot(less, o, n - 1, o.len() as int), n - 1)
    }
}

/// The order lists every position below `n` exactly once.
pub open spec fn lists_all(o: Seq<int>, n: int) -> bool {
    &&& o.len() == n
    &&& o.no_duplicates()
    &&& forall|i: int| 0 <= i < n ==> 0 <= #[trigger] o[i] < n
}

proof fn lemma_slot(less: spec_fn(int, int) -> bool, ord: Seq<int>, k: int, pos: int)
    requires
        0 <= pos <= ord.len(),
    ensures
        0 <= slot(less, ord, k, pos) <= pos,
        forall|j: int| slot(less, ord, k, pos) <= j < pos ==> less(k, #[trigger] ord[j]),
        slot(less, ord, k, pos) > 0 ==> !less(k, ord[slot(less, ord, k, pos) - 1]),
    decreases pos,
{
    if pos > 0 && less(k, ord[pos - 1]) {
        lemma_slot(less, ord, k, pos - 1);
    }
}

/// Every position below `n` occurs exactly once in the ranking.
pub proof fn ranked_lists_all(less: spec_fn(int, int) -> bool, n: int)
    requires
        0 <= n,
    ensures
        lists_all(ranked(less, n), n),
    decreases n,
{
    if n > 0 {
        let o = ranked(less, n - 1);
        ranked_lists_all(less, n - 1);
        let s = slot(less, o, n - 1, o.len() as int);
        lemma_slot(less, o, n - 1, o.len() as int);
        let r = o.insert(s, n - 1);
        assert forall|i: int| 0 <= i < n implies 0 <= #[trigger] r[i] < n by {
            if i < s {
                assert(r[i] == o[i]);
            } else if i > s {
                assert(r[i] == o[i - 1]);
            }
        }
        assert forall|i: int, j: int| 0 <= i < j < n implies r[i] != r[j] by {
            let a = if i < s { o[i] } else if i == s { n - 1 } else { o[i - 1] };
            let b = if j < s { o[j] } else if j == s { n - 1 } else { o[j - 1] };
            assert(r[i] == a && r[j] == b);
        }
    }
}

/// A list of all positions holds each of them.
pub proof fn lemma_lists(o: Seq<int>, n: int, i: int)
    requires
        lists_all(o, n),
        0 <= i < n,
    ensures
        exists|q: int| 0 <= q < o.len() && o[q] == i,
{
    let s = o.to_set();
    let full = vstd::set_lib::set_int_range(0, n);
    vstd::set_lib::lemma_int_range(0, n);
    o.unique_seq_to_set();
    assert(s.subset_of(full)) by {
        assert forall|x: int| s.contains(x) implies full.contains(x) by {
            let j = choose|j: int| 0 <= j < o.len() && o[j] == x;
            assert(0 <= o[j] < n);
        }
    }
    vstd::set_lib::lemma_subset_equality(s, full);
    assert(full.contains(i));
    assert(o.contains(i));
}

/// A strict order that is total up to ties.
pub open spec fn weak_order(less: spec_fn(int, int) -> bool) -> bool {
    &&& forall|a: int| !#[trigger] less(a, a)
    &&& forall|a: int, b: int, c: int| #[trigger] less(a, b) && #[trigger] less(b, c) ==> less(a, c)
    &&& forall|a: int, b: int, c: int|
        !#[trigger] less(a, b) && !#[trigger] less(b, c) ==> !less(a, c)
}

/// The ranking is ascending, and of two positions of equal rank the smaller comes first.
pub proof fn ranked_is_sorted_and_stable(less: spec_fn(int, int) -> bool, n: int)
    requires
        0 <= n,
        weak_order(less),
    ensures
        forall|i: int, j: int|
            0 <= i < j < n ==> !less(#[trigger] ranked(less, n)[j], #[trigger] ranked(less, n)[i]) && (
            less(ranked(less, n)[i], ranked(less, n)[j]) || ranked(less, n)[i] < ranked(less, n)[j]),
    decreases n,
{
    if n > 0 {
        let o = ranked(less, n - 1);
        ranked_is_sorted_and_stable(less, n - 1);
        ranked_lists_all(less, n - 1);
        let k = n - 1;
        let s = slot(less, o, k, o.len() as int);
        lemma_slot(less, o, k, o.len() as int);
        let r = o.insert(s, k);
        assert forall|i: int, j: int| 0 <= i < j < n implies !less(
            #[trigger] r[j],
            #[trigger] r[i],
        ) && (less(r[i], r[j]) || r[i] < r[j]) by {
            if i == s {
                assert(r[i] == k);
                assert(r[j] == o[j - 1]);
                assert(less(k, o[j - 1]));
                if less(o[j - 1], k) {
                    assert(less(k, k));
                }
            } else if j == s {
                assert(r[j] == k);
                assert(r[i] == o[i]);
                assert(!less(k, o[s - 1]));
                if i < s - 1 {
                    assert(!less(o[s - 1], o[i]));
                }
                assert(!less(k, o[i]));
                assert(0 <= o[i] < n - 1);
            } else {
                let a = if i < s { i } else { i - 1 };
                let b = if j < s { j } else { j - 1 };
                assert(r[i] == o[a] && r[j] == o[b]);
            }
        }
    }
}

/// The ranking of integer triples, as a function of the keys.
pub open spec fn by_key(keys: Seq<(i64, i64, i64)>) -> Seq<int> {
    ranked(|a: int, b: int| lt3(keys[a], keys[b]), keys.len() as int)
}

pub open spec fn as_ints(v: Seq<usize>) -> Seq<int> {
    Seq::new(v.len(), |i: int| v[i] as int)
}

/// The positions of `keys`, in ascending order of their keys and stable.
pub fn order_by_key(keys: &Vec<(i64, i64, i64)>) -> (r: Vec<usize>)
    ensures
        as_ints(r@) == by_key(keys@),
        lists_all(as_ints(r@), keys@.len() as int),
        r@.len() == keys@.len(),
        forall|i: int| 0 <= i < r@.len() ==> #[trigger] r@[i] < keys@.len(),
{
    let ghost less = |a: int, b: int| lt3(keys@[a], keys@[b]);
    let mut r: Vec<usize> = Vec::new();
    let mut n: usize = 0;
    proof {
        assert(as_ints(r@) =~= Seq::empty());
    }
    while n < keys.len()
        invariant
            n <= keys@.len(),
            less == (|a: int, b: int| lt3(keys@[a], keys@[b])),
            r@.len() == n,
            as_ints(r@) == ranked(less, n as int),
            forall|i: int| 0 <= i < n ==> #[trigger] r@[i] < n,
        decreases keys@.len() - n,
    {
        let mut pos: usize = r.len();
        while pos > 0 && is_lt3(keys[n], keys[r[pos - 1]])
            invariant
                pos <= r@.len(),
                n < keys@.len(),
                r@.len() == n,
                less == (|a: int, b: int| lt3(keys@[a], keys@[b])),
                forall|i: int| 0 <= i < n ==> #[trigger] r@[i] < n,
                slot(less, as_ints(r@), n as int, r@.len() as int) == slot(
                    less,
                    as_ints(r@),
                    n as int,
                    pos as int,
                ),
            decreases pos,
        {
            pos -= 1;
        }
        let ghost r0 = r@;
        r.insert(pos, n);
        proof {
            assert(as_ints(r@) =~= as_ints(r0).insert(pos as int, n as int));
            assert forall|i: int| 0 <= i < n + 1 implies #[trigger] r@[i] < n + 1 by {
                if i < pos {
                    assert(r@[i] == r0[i]);
                } else if i > pos {
                    assert(r@[i] == r0[i - 1]);
                }
            }
        }
        n += 1;
    }
    proof {
        ranked_lists_all(less, keys@.len() as int);
    }
    r
}

/// The ranking by a number and then by a name.
pub open spec fn by_name(counts: Seq<i64>, names: Seq<Seq<char>>) -> Seq<int> {
    ranked(
        |a: int, b: int|
            counts[a] < counts[b] || (counts[a] == counts[b] && text::before(names[a], names[b])),
        names.len() as int,
    )
}

/// The positions in ascending order of the count and, for equal counts, of the name.
pub fn order_by_name(counts: &Vec<i64>, names: &Vec<String>) -> (r: Vec<usize>)
    requires
        counts@.len() == names@.len(),
    ensures
        as_ints(r@) == by_name(counts@, text::views(names@)),
        lists_all(as_ints(r@), names@.len() as int),
        r@.len() == names@.len(),
        forall|i: int| 0 <= i < r@.len() ==> #[trigger] r@[i] < names@.len(),
{
    let ghost ns = text::views(names@);
    let ghost less = |a: int, b: int|
        counts@[a] < counts@[b] || (counts@[a] == counts@[b] && text::before(ns[a], ns[b]));
    let mut r: Vec<usize> = Vec::new();
    let mut n: usize = 0;
    proof {
        assert(as_ints(r@) =~= Seq::empty());
    }
    while n < names.len()
        invariant
            n <= names@.len(),
            counts@.len() == names@.len(),
            ns == text::views(names@),
            less == (|a: int, b: int|
                counts@[a] < counts@[b] || (counts@[a] == counts@[b] && text::before(ns[a], ns[b]))),
            r@.len() == n,
            as_ints(r@) == ranked(less, n as int),
            forall|i: int| 0 <= i < n ==> #[trigger] r@[i] < n,
        decreases names@.len() - n,
    {
        let mut pos: usize = r.len();
        while pos > 0 && (counts[n] < counts[r[pos - 1]] || (counts[n] == counts[r[pos - 1]]
            && is_before(names[n].as_str(), names[r[pos - 1]].as_str())))
            invariant
                pos <= r@.len(),
                n < names@.len(),
                counts@.len() == names@.len(),
                r@.len() == n,
                ns == text::views(names@),
                less == (|a: int, b: int|
                    counts@[a] < counts@[b] || (counts@[a] == counts@[b] && text::before(
                        ns[a],
                        ns[b],
                    ))),
                forall|i: int| 0 <= i < n ==> #[trigger] r@[i] < n,
                slot(less, as_ints(r@), n as int, r@.len() as int) == slot(
                    less,
                    as_ints(r@),
                    n as int,
                    pos as int,
                ),
            decreases pos,
        {
            pos -= 1;
        }
        let ghost r0 = r@;
        r.insert(pos, n);
        proof {
            assert(as_ints(r@) =~= as_ints(r0).insert(pos as int, n as int));
            assert forall|i: int| 0 <= i < n + 1 implies #[trigger] r@[i] < n + 1 by {
                if i < pos {
                    assert(r@[i] == r0[i]);
                } else if i > pos {
                    assert(r@[i] == r0[i - 1]);
                }
            }
        }
        n += 1;
    }
    proof {
        ranked_lists_all(less, names@.len() as int);
    }
    r
}

} // verus!
