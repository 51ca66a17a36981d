//! Which overlaps on a written sheet are reported.
use crate::emit::WriterV;
use crate::names;
use crate::render;
use crate::render::ItemV;
use vstd::prelude::*;

verus! {

/// Whether two items are reported: their boxes share area, they are not a symbol and a label of
/// its own, and they are not two symbols that are listed, the lesser first, as meant to stand close.
pub open spec fn reported(a: ItemV, b: ItemV, close: Seq<(Seq<char>, Seq<char>)>) -> bool {
    &&& a.room.x0 < b.room.x1 && b.room.x0 < a.room.x1
    &&& a.room.y0 < b.room.y1 && b.room.y0 < a.room.y1
    &&& a.symbol == b.symbol || a.owner != b.owner
    &&& a.symbol && b.symbol ==> !render::paired(close, a.owner, b.owner)
}

proof fn lemma_row(v: Seq<ItemV>, close: Seq<(Seq<char>, Seq<char>)>, i: int, n: int, t: Seq<char>)
    requires
        0 <= i < v.len(),
        n <= v.len(),
    ensures
        render::clashes_of(v, close, i, n).contains(t) <==> exists|j: int|
            i < j < n && reported(v[i], #[trigger] v[j], close) && t == v[i].name + " overlaps "@
                + v[j].name,
    decreases n,
{
    if n > 0 && n > i + 1 {
        lemma_row(v, close, i, n - 1, t);
        let a = render::clashes_of(v, close, i, n - 1);
        let b = render::clashes_of(v, close, i, n);
        let x = v[i].name + " overlaps "@ + v[n - 1].name;
        assert(render::clash(v[i], v[n - 1], close) == reported(v[i], v[n - 1], close));
        if a.contains(t) {
            let m = choose|m: int| 0 <= m < a.len() && a[m] == t;
            assert(b[m] == t);
            let j = choose|j: int|
                i < j < n - 1 && reported(v[i], #[trigger] v[j], close) && t == v[i].name
                    + " overlaps "@ + v[j].name;
            assert(i < j < n && reported(v[i], v[j], close));
        }
        if b.contains(t) && !a.contains(t) {
            let m = choose|m: int| 0 <= m < b.len() && b[m] == t;
            if m < a.len() {
                assert(a[m] == t);
            }
            assert(t == x);
            assert(reported(v[i], v[n - 1], close));
        }
        if exists|j: int|
            i < j < n && reported(v[i], #[trigger] v[j], close) && t == v[i].name + " overlaps "@
                + v[j].name {
            let j = choose|j: int|
                i < j < n && reported(v[i], #[trigger] v[j], close) && t == v[i].name
                    + " overlaps "@ + v[j].name;
            if j < n - 1 {
                assert(i < j < n - 1 && reported(v[i], v[j], close));
            } else {
                assert(b[a.len() as int] == t);
            }
        }
    }
}

/// Whether a line reports item `i` and an item after it.
pub open spec fn reports(
    v: Seq<ItemV>,
    close: Seq<(Seq<char>, Seq<char>)>,
    i: int,
    t: Seq<char>,
) -> bool {
    exists|j: int|
        i < j < v.len() && reported(v[i], #[trigger] v[j], close) && t == v[i].name + " overlaps "@
            + v[j].name
}

proof fn lemma_all(v: Seq<ItemV>, close: Seq<(Seq<char>, Seq<char>)>, n: int, t: Seq<char>)
    requires
        0 <= n <= v.len(),
    ensures
        render::clashes(v, close, n).contains(t) <==> exists|i: int|
            0 <= i < n && #[trigger] reports(v, close, i, t),
    decreases n,
{
    if n > 0 {
        lemma_all(v, close, n - 1, t);
        lemma_row(v, close, n - 1, v.len() as int, t);
        let a = render::clashes(v, close, n - 1);
        let b = render::clashes_of(v, close, n - 1, v.len() as int);
        let r = render::clashes(v, close, n);
        assert(r == a + b);
        if a.contains(t) {
            let m = choose|m: int| 0 <= m < a.len() && a[m] == t;
            assert(r[m] == t);
            let i = choose|i: int| 0 <= i < n - 1 && #[trigger] reports(v, close, i, t);
            assert(0 <= i < n && reports(v, close, i, t));
        }
        if b.contains(t) {
            let m = choose|m: int| 0 <= m < b.len() && b[m] == t;
            assert(r[a.len() + m] == t);
            assert(reports(v, close, n - 1, t));
        }
        if r.contains(t) {
            let m = choose|m: int| 0 <= m < r.len() && r[m] == t;
            if m < a.len() {
                assert(a[m] == t);
            } else {
                assert(b[m - a.len()] == t);
            }
        }
        if exists|i: int| 0 <= i < n && #[trigger] reports(v, close, i, t) {
            let i = choose|i: int| 0 <= i < n && #[trigger] reports(v, close, i, t);
            if i < n - 1 {
                assert(0 <= i < n - 1 && reports(v, close, i, t));
            }
        }
    }
}

/// The findings about a sheet are in order and hold a line for each two of its symbols and labels
/// that are reported, and no others.
pub proof fn every_overlap_is_reported(
    w: WriterV,
    close: Seq<(Seq<char>, Seq<char>)>,
    t: Seq<char>,
)
    ensures
        names::in_order(render::findings(w, close)),
        render::findings(w, close).contains(t) <==> exists|i: int|
            0 <= i < render::items_of(w).len() && #[trigger] reports(
                render::items_of(w),
                close,
                i,
                t,
            ),
{
    broadcast use vstd::seq_lib::group_to_multiset_ensures;

    let v = render::items_of(w);
    let c = render::clashes(v, close, v.len() as int);
    let n = c.len() as int;
    lemma_all(v, close, v.len() as int, t);
    names::sorted_is_in_order(c, n);
    assert(c.take(n) =~= c);
    let s = names::sorted(c, n);
    assert(s.contains(t) <==> s.to_multiset().count(t) > 0);
    assert(c.contains(t) <==> c.to_multiset().count(t) > 0);
}

} // verus!
