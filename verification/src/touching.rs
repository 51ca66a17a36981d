//! What touches what on a sheet, said of its wires, labels and marks themselves.
use crate::check;
use crate::compile;
use crate::compile::Key;
use crate::geom::Pt;
use crate::model::{DesignV, LabelV};
use crate::number;
use vstd::prelude::*;

verus! {

/// A point on whole hundredths of a millimetre.
pub open spec fn neat(p: Pt) -> bool {
    p.x % 1000 == 0 && p.y % 1000 == 0
}

/// A point on whole hundredths keeps its place: two of them have one key only where they are one
/// point.
pub proof fn neat_points_keep_their_place(p: Pt, q: Pt)
    requires
        neat(p),
        neat(q),
    ensures
        compile::key_spec(p).point() == p,
        compile::key_spec(p) == compile::key_spec(q) <==> p == q,
{
    lemma_neat(p.x);
    lemma_neat(p.y);
    lemma_neat(q.x);
    lemma_neat(q.y);
}

proof fn lemma_neat(v: i64)
    requires
        v % 1000 == 0,
    ensures
        (((number::rounded(v as int, 1000) / 1000) as i64) * 1000) as i64 == v,
{
    assert(number::rounded(v as int, 1000) == v);
}

/// Whether stretch `j` of wire `i` runs from one point to another.
pub open spec fn stretch(ws: Seq<Seq<Pt>>, i: int, j: int, a: Key, b: Key) -> bool {
    &&& 0 <= i < ws.len()
    &&& 0 <= j < ws[i].len() - 1
    &&& a == compile::key_spec(ws[i][j])
    &&& b == compile::key_spec(ws[i][j + 1])
}

/// Whether a stretch of wire runs from one point to another.
pub open spec fn runs(ws: Seq<Seq<Pt>>, a: Key, b: Key) -> bool {
    exists|i: int, j: int| stretch(ws, i, j, a, b)
}

/// Whether a stretch of the first `n` wires runs from one point to another.
pub open spec fn runs_among(ws: Seq<Seq<Pt>>, n: int, a: Key, b: Key) -> bool {
    exists|i: int, j: int| i < n && stretch(ws, i, j, a, b)
}

/// Whether a point lies on the stretch between two others, more than a hundredth from its ends.
pub open spec fn along(p: Key, a: Key, b: Key) -> bool {
    if a.0 == b.0 {
        p.0 == a.0 && (a.1 + 1 < p.1 < b.1 - 1 || b.1 + 1 < p.1 < a.1 - 1)
    } else if a.1 == b.1 {
        p.1 == a.1 && (a.0 + 1 < p.0 < b.0 - 1 || b.0 + 1 < p.0 < a.0 - 1)
    } else {
        compile::inside_seg(p, a, b)
    }
}

pub proof fn lemma_along(p: Key, a: Key, b: Key)
    ensures
        compile::inside_seg(p, a, b) == along(p, a, b),
{
}

/// Whether label `i` is the one that counts at its point: none after it stands there.
pub open spec fn label_counts(labels: Seq<LabelV>, i: int) -> bool {
    &&& 0 <= i < labels.len()
    &&& forall|j: int|
        i < j < labels.len() ==> compile::key_spec((#[trigger] labels[j]).at)
            != compile::key_spec(labels[i].at)
}

/// Whether a point is marked as unconnected.
pub open spec fn marked(des: DesignV, k: Key) -> bool {
    exists|i: int| 0 <= i < des.nc.len() && compile::key_spec(#[trigger] des.nc[i]) == k
}

proof fn lemma_wire_keys(w: Seq<Pt>, n: int)
    requires
        0 <= n <= w.len(),
    ensures
        compile::wire_keys(w, n).len() == (if n <= 1 {
            0
        } else {
            n - 1
        }),
        forall|j: int|
            0 <= j < n - 1 ==> #[trigger] compile::wire_keys(w, n)[j] == (
                compile::key_spec(w[j]),
                compile::key_spec(w[j + 1]),
            ),
    decreases n,
{
    if n > 1 {
        lemma_wire_keys(w, n - 1);
    }
}

/// The segments of a sheet are the stretches of its wires.
#[verifier::spinoff_prover]
#[verifier::rlimit(40)]
pub proof fn lemma_all_keys(ws: Seq<Seq<Pt>>, n: int)
    requires
        0 <= n <= ws.len(),
    ensures
        forall|m: int|
            0 <= m < compile::all_keys(ws, n).len() ==> runs_among(
                ws,
                n,
                (#[trigger] compile::all_keys(ws, n)[m]).0,
                compile::all_keys(ws, n)[m].1,
            ),
        forall|i: int, j: int, a: Key, b: Key|
            i < n && #[trigger] stretch(ws, i, j, a, b) ==> compile::all_keys(ws, n).contains(
                (a, b),
            ),
    decreases n,
{
    if n > 0 {
        lemma_all_keys(ws, n - 1);
        let w = ws[n - 1];
        lemma_wire_keys(w, w.len() as int);
        let s = compile::all_keys(ws, n - 1);
        let t = compile::wire_keys(w, w.len() as int);
        let all = compile::all_keys(ws, n);
        assert(all == s + t);
        assert forall|m: int| 0 <= m < all.len() implies runs_among(
            ws,
            n,
            (#[trigger] all[m]).0,
            all[m].1,
        ) by {
            if m < s.len() {
                assert(all[m] == s[m]);
                let (i, j) = choose|i: int, j: int|
                    i < n - 1 && stretch(ws, i, j, s[m].0, s[m].1);
                assert(i < n && stretch(ws, i, j, all[m].0, all[m].1));
            } else {
                let j = m - s.len();
                assert(all[m] == t[j]);
                assert(n - 1 < n && stretch(ws, n - 1, j, all[m].0, all[m].1));
            }
        }
        assert forall|i: int, j: int, a: Key, b: Key|
            i < n && #[trigger] stretch(ws, i, j, a, b) implies all.contains((a, b)) by {
            if i < n - 1 {
                assert(s.contains((a, b)));
                let m = choose|m: int| 0 <= m < s.len() && s[m] == (a, b);
                assert(all[m] == (a, b));
            } else {
                assert(t[j] == (a, b));
                assert(all[s.len() + j] == (a, b));
            }
        }
    }
}

/// Whether label `i` is the last of the first `n` at its point.
pub open spec fn last_label(labels: Seq<LabelV>, i: int, n: int) -> bool {
    &&& 0 <= i < n
    &&& forall|j: int|
        i < j < n ==> compile::key_spec((#[trigger] labels[j]).at) != compile::key_spec(
            labels[i].at,
        )
}

pub proof fn lemma_seek_key<T>(v: Seq<(Key, T)>, k: Key, i: int)
    requires
        0 <= i <= v.len(),
    ensures
        i <= compile::seek_key(v, k, i) <= v.len(),
        compile::seek_key(v, k, i) < v.len() ==> v[compile::seek_key(v, k, i)].0 == k,
        forall|j: int| i <= j < compile::seek_key(v, k, i) ==> (#[trigger] v[j]).0 != k,
    decreases v.len() - i,
{
    if i < v.len() && v[i].0 != k {
        lemma_seek_key(v, k, i + 1);
    }
}

/// The points with labels, each with its last label.
#[verifier::spinoff_prover]
#[verifier::rlimit(40)]
pub proof fn lemma_label_points(labels: Seq<LabelV>, n: int)
    requires
        0 <= n <= labels.len(),
    ensures
        ({
            let v = check::label_points(labels, n);
            &&& forall|m: int|
                0 <= m < v.len() ==> last_label(labels, (#[trigger] v[m]).1, n) && v[m].0
                    == compile::key_spec(labels[v[m].1].at)
            &&& forall|i: int| #[trigger]
                last_label(labels, i, n) ==> v.contains((compile::key_spec(labels[i].at), i))
            &&& forall|m: int, q: int|
                0 <= m < v.len() && 0 <= q < v.len() && (#[trigger] v[m]).0 == (
                #[trigger] v[q]).0 ==> m == q
            &&& forall|i: int|
                0 <= i < n ==> exists|m: int|
                    0 <= m < v.len() && (#[trigger] v[m]).0 == compile::key_spec(
                        (#[trigger] labels[i]).at,
                    )
        }),
    decreases n,
{
    if n > 0 {
        lemma_label_points(labels, n - 1);
        let s = check::label_points(labels, n - 1);
        let k = compile::key_spec(labels[n - 1].at);
        let q = compile::seek_key(s, k, 0);
        lemma_seek_key(s, k, 0);
        let v = check::label_points(labels, n);
        assert(q < s.len() ==> v == s.update(q, (k, n - 1)));
        assert(q >= s.len() ==> v == s.push((k, n - 1)));
        let at = if q < s.len() { q } else { s.len() as int };
        assert(v[at] == (k, n - 1));
        assert forall|m: int| 0 <= m < v.len() implies last_label(
            labels,
            (#[trigger] v[m]).1,
            n,
        ) && v[m].0 == compile::key_spec(labels[v[m].1].at) by {
            if m != at {
                assert(v[m] == s[m]);
                assert(last_label(labels, s[m].1, n - 1));
                assert(s[m].0 != k);
            }
        }
        assert forall|i: int| #[trigger] last_label(labels, i, n) implies v.contains(
            (compile::key_spec(labels[i].at), i),
        ) by {
            if i < n - 1 {
                assert(last_label(labels, i, n - 1));
                let e = (compile::key_spec(labels[i].at), i);
                assert(s.contains(e));
                let m = choose|m: int| 0 <= m < s.len() && s[m] == e;
                assert(compile::key_spec(labels[n - 1].at) != compile::key_spec(labels[i].at));
                assert(v[m] == e);
            } else {
                assert(v[at] == (k, i));
            }
        }
        assert forall|m: int, o: int|
            0 <= m < v.len() && 0 <= o < v.len() && (#[trigger] v[m]).0 == (
            #[trigger] v[o]).0 implies m == o by {
            if m != at {
                assert(v[m] == s[m]);
                assert(s[m].0 != k);
            }
            if o != at {
                assert(v[o] == s[o]);
                assert(s[o].0 != k);
            }
        }
        assert forall|i: int| 0 <= i < n implies exists|m: int|
            0 <= m < v.len() && (#[trigger] v[m]).0 == compile::key_spec(
                (#[trigger] labels[i]).at,
            ) by {
            if i < n - 1 {
                let m = choose|m: int|
                    0 <= m < s.len() && (#[trigger] s[m]).0 == compile::key_spec(labels[i].at);
                assert(v[m].0 == compile::key_spec(labels[i].at));
            } else {
                assert(v[at].0 == k);
            }
        }
    }
}

} // verus!
