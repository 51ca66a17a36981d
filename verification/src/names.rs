//! Sorted lists of names.
use crate::text;
use crate::text::{is_before, same};
use vstd::prelude::*;

verus! {

/// The first place from `i` on that does not come before `x`.
pub open spec fn spot(s: Seq<Seq<char>>, x: Seq<char>, i: int) -> int
    decreases s.len() - i,
{
    if i < 0 || i >= s.len() {
        s.len() as int
    } else if text::before(s[i], x) {
        spot(s, x, i + 1)
    } else {
        i
    }
}

/// A sorted list with one more name; equal names stand side by side.
pub open spec fn sorted_add(s: Seq<Seq<char>>, x: Seq<char>) -> Seq<Seq<char>> {
    s.insert(spot(s, x, 0), x)
}

/// A sorted set with one more name.
pub open spec fn set_add(s: Seq<Seq<char>>, x: Seq<char>) -> Seq<Seq<char>> {
    if s.contains(x) {
        s
    } else {
        sorted_add(s, x)
    }
}

/// The first `n` names in ascending order.
pub open spec fn sorted(v: Seq<Seq<char>>, n: int) -> Seq<Seq<char>>
    decreases n,
{
    if n <= 0 {
        Seq::empty()
    } else {
        sorted_add(sorted(v, n - 1), v[n - 1])
    }
}

/// The first `n` names in ascending order, each once.
pub open spec fn distinct(v: Seq<Seq<char>>, n: int) -> Seq<Seq<char>>
    decreases n,
{
    if n <= 0 {
        Seq::empty()
    } else {
        set_add(distinct(v, n - 1), v[n - 1])
    }
}

/// No name comes before one that stands ahead of it.
pub open spec fn in_order(s: Seq<Seq<char>>) -> bool {
    forall|i: int, j: int| 0 <= i < j < s.len() ==> !text::before(#[trigger] s[j], #[trigger] s[i])
}

pub proof fn lemma_spot(s: Seq<Seq<char>>, x: Seq<char>, i: int)
    requires
        0 <= i <= s.len(),
    ensures
        i <= spot(s, x, i) <= s.len(),
        forall|j: int| i <= j < spot(s, x, i) ==> text::before(#[trigger] s[j], x),
        spot(s, x, i) < s.len() ==> !text::before(s[spot(s, x, i)], x),
    decreases s.len() - i,
{
    if i < s.len() && text::before(s[i], x) {
        lemma_spot(s, x, i + 1);
    }
}

pub proof fn lemma_add_in_order(s: Seq<Seq<char>>, x: Seq<char>)
    requires
        in_order(s),
    ensures
        in_order(sorted_add(s, x)),
{
    lemma_spot(s, x, 0);
    let k = spot(s, x, 0);
    let t = sorted_add(s, x);
    assert forall|i: int, j: int| 0 <= i < j < t.len() implies !text::before(
        #[trigger] t[j],
        #[trigger] t[i],
    ) by {
        let p = if i < k { i } else { i - 1 };
        let q = if j < k { j } else { j - 1 };
        if i == k {
            assert(t[j] == s[q]);
            if text::before(s[q], x) {
                if q != k {
                    text::before_total(s[k], x);
                    if s[k] == x {
                        assert(!text::before(s[q], s[k]));
                    } else {
                        text::before_transitive(s[q], x, s[k]);
                    }
                }
            }
        } else if j == k {
            assert(t[i] == s[i]);
            if text::before(x, s[i]) {
                text::before_transitive(x, s[i], x);
                text::before_irreflexive(x);
            }
        } else {
            assert(t[i] == s[p] && t[j] == s[q]);
        }
    }
}

/// Sorting puts names in ascending order and keeps every one of them.
pub proof fn sorted_is_in_order(v: Seq<Seq<char>>, n: int)
    requires
        0 <= n <= v.len(),
    ensures
        in_order(sorted(v, n)),
        sorted(v, n).to_multiset() == v.take(n).to_multiset(),
    decreases n,
{
    if n <= 0 {
        assert(v.take(n) =~= Seq::empty());
        assert(sorted(v, n) =~= v.take(n));
    } else {
        sorted_is_in_order(v, n - 1);
        let s = sorted(v, n - 1);
        let x = v[n - 1];
        lemma_add_in_order(s, x);
        lemma_spot(s, x, 0);
        let k = spot(s, x, 0);
        vstd::seq_lib::to_multiset_insert(s, k, x);
        assert(v.take(n) =~= v.take(n - 1).push(x));
        broadcast use vstd::seq_lib::group_to_multiset_ensures;

    }
}

pub proof fn lemma_add_contains(s: Seq<Seq<char>>, x: Seq<char>, y: Seq<char>)
    ensures
        set_add(s, x).contains(y) == (s.contains(y) || x == y),
{
    if !s.contains(x) {
        lemma_spot(s, x, 0);
        let k = spot(s, x, 0);
        let t = sorted_add(s, x);
        assert(t[k] == x);
        if s.contains(y) {
            let i = choose|i: int| 0 <= i < s.len() && s[i] == y;
            if i < k {
                assert(t[i] == y);
            } else {
                assert(t[i + 1] == y);
            }
        }
        if t.contains(y) && x != y {
            let i = choose|i: int| 0 <= i < t.len() && t[i] == y;
            if i < k {
                assert(s[i] == y);
            } else {
                assert(s[i - 1] == y);
            }
        }
    }
}

/// A set holds the names that it was made of, in ascending order and each once.
pub proof fn distinct_holds_each_once(v: Seq<Seq<char>>, n: int)
    requires
        0 <= n <= v.len(),
    ensures
        in_order(distinct(v, n)),
        distinct(v, n).no_duplicates(),
        forall|y: Seq<char>| #[trigger] distinct(v, n).contains(y) <==> v.take(n).contains(y),
    decreases n,
{
    if n <= 0 {
        assert(v.take(n) =~= Seq::empty());
    } else {
        distinct_holds_each_once(v, n - 1);
        let s = distinct(v, n - 1);
        let x = v[n - 1];
        if !s.contains(x) {
            lemma_add_in_order(s, x);
            lemma_spot(s, x, 0);
            let k = spot(s, x, 0);
            let t = sorted_add(s, x);
            assert forall|i: int, j: int| 0 <= i < t.len() && 0 <= j < t.len() && i != j implies t[i]
                != t[j] by {
                let p = if i < k { i } else { i - 1 };
                let q = if j < k { j } else { j - 1 };
                if i != k {
                    assert(t[i] == s[p]);
                }
                if j != k {
                    assert(t[j] == s[q]);
                }
            }
        }
        let a = v.take(n - 1);
        assert(v.take(n) =~= a.push(x));
        assert forall|y: Seq<char>| #[trigger] distinct(v, n).contains(y) <==> v.take(n).contains(
            y,
        ) by {
            lemma_add_contains(s, x, y);
            assert(s.contains(y) <==> a.contains(y));
            if a.contains(y) {
                let i = choose|i: int| 0 <= i < a.len() && a[i] == y;
                assert(v.take(n)[i] == y);
            }
            if x == y {
                assert(v.take(n)[n - 1] == y);
            }
            if v.take(n).contains(y) && x != y {
                let i = choose|i: int| 0 <= i < n && v.take(n)[i] == y;
                assert(a[i] == y);
            }
        }
    }
}

pub fn has_name(v: &Vec<String>, x: &str) -> (r: bool)
    ensures
        r == text::views(v@).contains(x@),
{
    let ghost s = text::views(v@);
    let mut i: usize = 0;
    while i < v.len()
        invariant
            i <= v@.len(),
            s == text::views(v@),
            forall|j: int| 0 <= j < i ==> #[trigger] s[j] != x@,
        decreases v@.len() - i,
    {
        if same(v[i].as_str(), x) {
            assert(s[i as int] == x@);
            return true;
        }
        i += 1;
    }
    false
}

/// Adds a name to a sorted list.
pub fn add_sorted(v: &mut Vec<String>, x: String)
    ensures
        text::views(final(v)@) == sorted_add(text::views(old(v)@), x@),
        final(v)@.len() == old(v)@.len() + 1,
{
    let ghost s = text::views(v@);
    let ghost v0 = v@;
    let mut i: usize = 0;
    while i < v.len() && is_before(v[i].as_str(), x.as_str())
        invariant
            i <= v@.len(),
            v@ == v0,
            s == text::views(v@),
            spot(s, x@, 0) == spot(s, x@, i as int),
        decreases v@.len() - i,
    {
        assert(s[i as int] == v@[i as int]@);
        i += 1;
    }
    proof {
        if i < v@.len() {
            assert(s[i as int] == v@[i as int]@);
        }
        lemma_spot(s, x@, 0);
    }
    v.insert(i, x);
    assert(text::views(v@) =~= sorted_add(s, x@));
}

/// Adds a name to a sorted set.
pub fn add_distinct(v: &mut Vec<String>, x: String)
    ensures
        text::views(final(v)@) == set_add(text::views(old(v)@), x@),
        final(v)@.len() <= old(v)@.len() + 1,
{
    if !has_name(v, x.as_str()) {
        add_sorted(v, x);
    }
}

/// Names in ascending order.
pub fn sort_names(v: &Vec<String>) -> (r: Vec<String>)
    ensures
        text::views(r@) == sorted(text::views(v@), v@.len() as int),
        r@.len() == v@.len(),
{
    let ghost s = text::views(v@);
    let mut r: Vec<String> = Vec::new();
    let mut i: usize = 0;
    assert(text::views(r@) =~= sorted(s, 0));
    while i < v.len()
        invariant
            i <= v@.len(),
            s == text::views(v@),
            r@.len() == i,
            text::views(r@) == sorted(s, i as int),
        decreases v@.len() - i,
    {
        add_sorted(&mut r, v[i].clone());
        assert(s[i as int] == v@[i as int]@);
        i += 1;
    }
    r
}

/// Names in ascending order, each once.
pub fn name_set(v: &Vec<String>) -> (r: Vec<String>)
    ensures
        text::views(r@) == distinct(text::views(v@), v@.len() as int),
        r@.len() <= v@.len(),
{
    let ghost s = text::views(v@);
    let mut r: Vec<String> = Vec::new();
    let mut i: usize = 0;
    assert(text::views(r@) =~= distinct(s, 0));
    while i < v.len()
        invariant
            i <= v@.len(),
            s == text::views(v@),
            r@.len() <= i,
            text::views(r@) == distinct(s, i as int),
        decreases v@.len() - i,
    {
        add_distinct(&mut r, v[i].clone());
        assert(s[i as int] == v@[i as int]@);
        i += 1;
    }
    r
}

} // verus!
