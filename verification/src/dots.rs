//! Where junctions are drawn: at each point with something on it where three connections meet,
//! and nowhere else.
use crate::check;
use crate::compile;
use crate::compile::{Key, PinsAtV, Shelf, StateV, TrailV};
use crate::extract;
use crate::geom::Pt;
use crate::joined::noted;
use crate::model::{DesignV, LabelV};
use crate::order_map::OrderMap;
use crate::readback;
use crate::roundtrip;
use crate::sexp;
use crate::symlib::SymbolInfo;
use crate::touching;
use crate::touching::{along, runs, stretch};
use std::sync::Arc;
use vstd::prelude::*;

verus! {

// ---------------------------------------------------------------- what meets at a point
/// How many connections a stretch of wire makes at a point: one where it ends there, two where it
/// passes.
pub open spec fn meets(a: Key, b: Key, k: Key) -> int {
    (if k == a {
        1int
    } else {
        0
    }) + (if k == b {
        1int
    } else {
        0
    }) + (if k != a && k != b && along(k, a, b) {
        2int
    } else {
        0
    })
}

/// The connections that the first `n` stretches of a wire make at a point.
pub open spec fn wire_meets(w: Seq<Pt>, n: int, k: Key) -> int
    decreases n,
{
    if n <= 0 {
        0
    } else {
        wire_meets(w, n - 1, k) + meets(
            compile::key_spec(w[n - 1]),
            compile::key_spec(w[n]),
            k,
        )
    }
}

/// The connections that the first `n` wires make at a point.
pub open spec fn wires_meet(ws: Seq<Seq<Pt>>, n: int, k: Key) -> int
    decreases n,
{
    if n <= 0 {
        0
    } else {
        wires_meet(ws, n - 1, k) + wire_meets(ws[n - 1], ws[n - 1].len() - 1, k)
    }
}

/// The pins at a point, in the first `n` entries.
pub open spec fn pins_meet(pins: PinsAtV, n: int, k: Key) -> int
    decreases n,
{
    if n <= 0 {
        0
    } else {
        pins_meet(pins, n - 1, k) + (if pins[n - 1].0 == k {
            pins[n - 1].1.len() as int
        } else {
            0
        })
    }
}

/// The connections that meet at a point: ends of wires and pins, and two for each wire that passes.
pub open spec fn connections(des: DesignV, pins: PinsAtV, k: Key) -> int {
    wires_meet(des.wires, des.wires.len() as int, k) + pins_meet(pins, pins.len() as int, k)
}

// ---------------------------------------------------------------- degrees
spec fn value(v: Seq<(Key, int)>, k: Key) -> int {
    let i = compile::seek_key(v, k, 0);
    if i < v.len() {
        v[i].1
    } else {
        0
    }
}

spec fn holds(v: Seq<(Key, int)>, k: Key) -> bool {
    compile::seek_key(v, k, 0) < v.len()
}

spec fn once(v: Seq<(Key, int)>) -> bool {
    forall|i: int, j: int| 0 <= i < j < v.len() ==> (#[trigger] v[i]).0 != (#[trigger] v[j]).0
}

proof fn lemma_entry(v: Seq<(Key, int)>, i: int)
    requires
        once(v),
        0 <= i < v.len(),
    ensures
        holds(v, v[i].0),
        value(v, v[i].0) == v[i].1,
{
    touching::lemma_seek_key(v, v[i].0, 0);
    let j = compile::seek_key(v, v[i].0, 0);
    if j > i {
        assert(v[i].0 != v[i].0);
    }
    if j < i {
        assert(v[j].0 != v[i].0);
    }
}

#[verifier::spinoff_prover]
#[verifier::rlimit(40)]
proof fn lemma_bumped(v: Seq<(Key, int)>, k: Key, n: int)
    requires
        once(v),
    ensures
        once(compile::bumped(v, k, n)),
        forall|q: Key| #[trigger]
            value(compile::bumped(v, k, n), q) == value(v, q) + (if q == k {
                n
            } else {
                0
            }),
        forall|q: Key| #[trigger] holds(compile::bumped(v, k, n), q) <==> holds(v, q) || q == k,
{
    let r = compile::bumped(v, k, n);
    let i = compile::seek_key(v, k, 0);
    touching::lemma_seek_key(v, k, 0);
    assert(once(r));
    assert forall|q: Key|
        #![trigger value(r, q)]
        #![trigger holds(r, q)]
        value(r, q) == value(v, q) + (if q == k {
            n
        } else {
            0
        }) && (holds(r, q) <==> holds(v, q) || q == k) by {
        touching::lemma_seek_key(v, q, 0);
        touching::lemma_seek_key(r, q, 0);
        if q == k {
            let at = if i < v.len() { i } else { v.len() as int };
            assert(r[at].0 == k);
            lemma_entry(r, at);
        } else if holds(v, q) {
            let j = compile::seek_key(v, q, 0);
            assert(r[j] == v[j]);
            lemma_entry(r, j);
        } else if holds(r, q) {
            let j = compile::seek_key(r, q, 0);
            assert(r[j].0 == q);
            assert(v[j].0 == q);
            assert(false);
        }
    }
}

/// Ends and passings of the first `n` segments.
spec fn segs_meet(segs: Seq<(Key, Key)>, n: int, k: Key) -> int
    decreases n,
{
    if n <= 0 {
        0
    } else {
        segs_meet(segs, n - 1, k) + meets(segs[n - 1].0, segs[n - 1].1, k)
    }
}

spec fn ended(segs: Seq<(Key, Key)>, n: int, k: Key) -> bool {
    exists|i: int| 0 <= i < n && ((#[trigger] segs[i]).0 == k || segs[i].1 == k)
}

#[verifier::spinoff_prover]
#[verifier::rlimit(40)]
proof fn lemma_segs(segs: Seq<(Key, Key)>, n: int, k: Key)
    requires
        0 <= n <= segs.len(),
    ensures
        once(compile::seg_degrees(segs, n)),
        value(compile::seg_degrees(segs, n), k) + 2 * compile::passing(segs, k, n) == segs_meet(
            segs,
            n,
            k,
        ),
        holds(compile::seg_degrees(segs, n), k) <==> ended(segs, n, k),
    decreases n,
{
    if n > 0 {
        lemma_segs(segs, n - 1, k);
        let s = compile::seg_degrees(segs, n - 1);
        let (a, b) = segs[n - 1];
        lemma_bumped(s, a, 1);
        lemma_bumped(compile::bumped(s, a, 1), b, 1);
        touching::lemma_along(k, a, b);
        if ended(segs, n - 1, k) {
            let i = choose|i: int| 0 <= i < n - 1 && ((#[trigger] segs[i]).0 == k || segs[i].1 == k);
            assert(segs[i].0 == k || segs[i].1 == k);
        }
        if ended(segs, n, k) {
            let i = choose|i: int| 0 <= i < n && ((#[trigger] segs[i]).0 == k || segs[i].1 == k);
            assert(i < n - 1 ==> ended(segs, n - 1, k));
        }
        if a == k || b == k {
            assert(segs[n - 1].0 == k || segs[n - 1].1 == k);
        }
        assert(holds(compile::seg_degrees(segs, n), k) <==> holds(compile::bumped(s, a, 1), k) || k
            == b);
    } else {
        assert(compile::seg_degrees(segs, 0).len() == 0);
    }
}

spec fn pinned(pins: PinsAtV, n: int, k: Key) -> bool {
    exists|i: int| 0 <= i < n && (#[trigger] pins[i]).0 == k
}

proof fn lemma_pins(v: Seq<(Key, int)>, pins: PinsAtV, n: int, k: Key)
    requires
        once(v),
        0 <= n <= pins.len(),
    ensures
        once(compile::pin_degrees(v, pins, n)),
        value(compile::pin_degrees(v, pins, n), k) == value(v, k) + pins_meet(pins, n, k),
        holds(compile::pin_degrees(v, pins, n), k) <==> holds(v, k) || pinned(pins, n, k),
    decreases n,
{
    if n > 0 {
        lemma_pins(v, pins, n - 1, k);
        lemma_bumped(
            compile::pin_degrees(v, pins, n - 1),
            pins[n - 1].0,
            pins[n - 1].1.len() as int,
        );
        if pinned(pins, n - 1, k) {
            let i = choose|i: int| 0 <= i < n - 1 && (#[trigger] pins[i]).0 == k;
            assert(pins[i].0 == k);
        }
        if pinned(pins, n, k) {
            let i = choose|i: int| 0 <= i < n && (#[trigger] pins[i]).0 == k;
            assert(i < n - 1 ==> pinned(pins, n - 1, k));
        }
        if pins[n - 1].0 == k {
            assert(pinned(pins, n, k));
        }
    }
}

spec fn labelled(labels: Seq<LabelV>, n: int, k: Key) -> bool {
    exists|i: int| 0 <= i < n && compile::key_spec((#[trigger] labels[i]).at) == k
}

proof fn lemma_labels(v: Seq<(Key, int)>, labels: Seq<LabelV>, n: int, k: Key)
    requires
        once(v),
        0 <= n <= labels.len(),
    ensures
        once(compile::label_degrees(v, labels, n)),
        value(compile::label_degrees(v, labels, n), k) == value(v, k),
        holds(compile::label_degrees(v, labels, n), k) <==> holds(v, k) || labelled(labels, n, k),
    decreases n,
{
    if n > 0 {
        lemma_labels(v, labels, n - 1, k);
        lemma_bumped(
            compile::label_degrees(v, labels, n - 1),
            compile::key_spec(labels[n - 1].at),
            0,
        );
        if labelled(labels, n - 1, k) {
            let i = choose|i: int|
                0 <= i < n - 1 && compile::key_spec((#[trigger] labels[i]).at) == k;
            assert(compile::key_spec(labels[i].at) == k);
        }
        if labelled(labels, n, k) {
            let i = choose|i: int| 0 <= i < n && compile::key_spec((#[trigger] labels[i]).at) == k;
            assert(i < n - 1 ==> labelled(labels, n - 1, k));
        }
        if compile::key_spec(labels[n - 1].at) == k {
            assert(labelled(labels, n, k));
        }
    }
}

// ---------------------------------------------------------------- from wires to segments
proof fn lemma_wire(w: Seq<Pt>, n: int, s: Seq<(Key, Key)>, k: Key)
    requires
        0 <= n <= w.len(),
    ensures
        segs_meet(
            s + compile::wire_keys(w, n),
            (s + compile::wire_keys(w, n)).len() as int,
            k,
        ) == segs_meet(s, s.len() as int, k) + wire_meets(w, n - 1, k),
    decreases n,
{
    let t = s + compile::wire_keys(w, n);
    if n > 1 {
        lemma_wire(w, n - 1, s, k);
        let o = s + compile::wire_keys(w, n - 1);
        assert(t =~= o.push((compile::key_spec(w[n - 2]), compile::key_spec(w[n - 1]))));
        lemma_prefix(o, t, o.len() as int, k);
    } else {
        assert(t =~= s);
    }
}

proof fn lemma_prefix(a: Seq<(Key, Key)>, b: Seq<(Key, Key)>, n: int, k: Key)
    requires
        0 <= n <= a.len() <= b.len(),
        forall|i: int| 0 <= i < a.len() ==> #[trigger] a[i] == b[i],
    ensures
        segs_meet(a, n, k) == segs_meet(b, n, k),
    decreases n,
{
    if n > 0 {
        lemma_prefix(a, b, n - 1, k);
        assert(a[n - 1] == b[n - 1]);
    }
}

proof fn lemma_wires(ws: Seq<Seq<Pt>>, n: int, k: Key)
    requires
        0 <= n <= ws.len(),
    ensures
        segs_meet(compile::all_keys(ws, n), compile::all_keys(ws, n).len() as int, k) == wires_meet(
            ws,
            n,
            k,
        ),
    decreases n,
{
    if n > 0 {
        lemma_wires(ws, n - 1, k);
        lemma_wire(ws[n - 1], ws[n - 1].len() as int, compile::all_keys(ws, n - 1), k);
    }
}

// ---------------------------------------------------------------- junctions
/// The degrees that junctions are drawn from.
spec fn degrees(des: DesignV, pins: PinsAtV) -> Seq<(Key, int)> {
    let segs = compile::all_keys(des.wires, des.wires.len() as int);
    compile::label_degrees(
        compile::pin_degrees(
            compile::seg_degrees(segs, segs.len() as int),
            pins,
            pins.len() as int,
        ),
        des.labels,
        des.labels.len() as int,
    )
}

#[verifier::spinoff_prover]
#[verifier::rlimit(40)]
proof fn lemma_degrees(des: DesignV, pins: PinsAtV, k: Key)
    ensures
        ({
            let d = degrees(des, pins);
            let segs = compile::all_keys(des.wires, des.wires.len() as int);
            &&& once(d)
            &&& value(d, k) + 2 * compile::passing(segs, k, segs.len() as int) == connections(
                des,
                pins,
                k,
            )
            &&& holds(d, k) <==> noted(des, pins, k)
        }),
{
    let segs = compile::all_keys(des.wires, des.wires.len() as int);
    let v0 = compile::seg_degrees(segs, segs.len() as int);
    let v1 = compile::pin_degrees(v0, pins, pins.len() as int);
    lemma_segs(segs, segs.len() as int, k);
    lemma_pins(v0, pins, pins.len() as int, k);
    lemma_labels(v1, des.labels, des.labels.len() as int, k);
    lemma_wires(des.wires, des.wires.len() as int, k);
    touching::lemma_all_keys(des.wires, des.wires.len() as int);
    let n = segs.len() as int;
    if ended(segs, n, k) {
        let i = choose|i: int| 0 <= i < n && ((#[trigger] segs[i]).0 == k || segs[i].1 == k);
        let (a, b) = segs[i];
        assert(touching::runs_among(des.wires, des.wires.len() as int, segs[i].0, segs[i].1));
        let (m, j) = choose|m: int, j: int|
            m < des.wires.len() && stretch(des.wires, m, j, a, b);
        assert(stretch(des.wires, m, j, a, b));
        assert(runs(des.wires, a, b));
    }
    if exists|a: Key, b: Key| (k == a || k == b) && #[trigger] runs(des.wires, a, b) {
        let (a, b) = choose|a: Key, b: Key| (k == a || k == b) && #[trigger] runs(des.wires, a, b);
        let (m, j) = choose|m: int, j: int| stretch(des.wires, m, j, a, b);
        assert(segs.contains((a, b)));
        let i = choose|i: int| 0 <= i < segs.len() && segs[i] == (a, b);
        assert(segs[i].0 == k || segs[i].1 == k);
    }
}

proof fn lemma_meeting(v: Seq<(Key, int)>, segs: Seq<(Key, Key)>, n: int)
    requires
        0 <= n <= v.len(),
    ensures
        forall|i: int|
            0 <= i < n && (#[trigger] v[i]).1 + 2 * compile::passing(
                segs,
                v[i].0,
                segs.len() as int,
            ) >= 3 ==> compile::meeting(v, segs, n).contains(v[i].0.point()),
        forall|p: Pt| #[trigger]
            compile::meeting(v, segs, n).contains(p) ==> exists|i: int|
                0 <= i < n && (#[trigger] v[i]).0.point() == p && v[i].1 + 2 * compile::passing(
                    segs,
                    v[i].0,
                    segs.len() as int,
                ) >= 3,
    decreases n,
{
    if n > 0 {
        lemma_meeting(v, segs, n - 1);
        let s = compile::meeting(v, segs, n - 1);
        let t = compile::meeting(v, segs, n);
        assert forall|i: int|
            0 <= i < n && (#[trigger] v[i]).1 + 2 * compile::passing(
                segs,
                v[i].0,
                segs.len() as int,
            ) >= 3 implies t.contains(v[i].0.point()) by {
            if i < n - 1 {
                assert(s.contains(v[i].0.point()));
                let j = choose|j: int| 0 <= j < s.len() && s[j] == v[i].0.point();
                assert(t[j] == v[i].0.point());
            } else {
                assert(t[s.len() as int] == v[i].0.point());
            }
        }
        assert forall|p: Pt| #[trigger] t.contains(p) implies exists|i: int|
            0 <= i < n && (#[trigger] v[i]).0.point() == p && v[i].1 + 2 * compile::passing(
                segs,
                v[i].0,
                segs.len() as int,
            ) >= 3 by {
            if s.contains(p) {
                let i = choose|i: int|
                    0 <= i < n - 1 && (#[trigger] v[i]).0.point() == p && v[i].1 + 2
                        * compile::passing(segs, v[i].0, segs.len() as int) >= 3;
                assert(v[i].0.point() == p);
            } else {
                let j = choose|j: int| 0 <= j < t.len() && t[j] == p;
                if j < s.len() {
                    assert(s[j] == p);
                }
                assert(v[n - 1].0.point() == p);
            }
        }
    }
}

/// A junction is drawn at each point with a wire end, a pin or a label on it where three or more
/// connections meet.
pub proof fn a_junction_stands_where_three_connections_meet(des: DesignV, pins: PinsAtV, k: Key)
    requires
        noted(des, pins, k),
        connections(des, pins, k) >= 3,
    ensures
        compile::junctions_spec(des, pins).contains(k.point()),
{
    let segs = compile::all_keys(des.wires, des.wires.len() as int);
    let d = degrees(des, pins);
    lemma_degrees(des, pins, k);
    lemma_meeting(d, segs, d.len() as int);
    let i = compile::seek_key(d, k, 0);
    touching::lemma_seek_key(d, k, 0);
    assert(d[i].0 == k);
}

/// No junction is drawn where fewer than three connections meet, nor where there is nothing but
/// wires that cross.
pub proof fn no_junction_stands_where_two_connections_meet(des: DesignV, pins: PinsAtV, k: Key)
    requires
        forall|q: Key| noted(des, pins, q) ==> #[trigger] compile::key_ok(q),
        compile::key_ok(k),
        !noted(des, pins, k) || connections(des, pins, k) < 3,
    ensures
        !compile::junctions_spec(des, pins).contains(k.point()),
{
    let segs = compile::all_keys(des.wires, des.wires.len() as int);
    let d = degrees(des, pins);
    lemma_meeting(d, segs, d.len() as int);
    if compile::junctions_spec(des, pins).contains(k.point()) {
        let i = choose|i: int|
            0 <= i < d.len() && (#[trigger] d[i]).0.point() == k.point() && d[i].1 + 2
                * compile::passing(segs, d[i].0, segs.len() as int) >= 3;
        lemma_degrees(des, pins, d[i].0);
        lemma_entry(d, i);
        assert(compile::key_ok(d[i].0));
        assert(d[i].0 == k);
    }
}

proof fn lemma_meets_least(w: Seq<Pt>, n: int, j: int, k: Key)
    requires
        0 <= n < w.len() || n == 0,
    ensures
        wire_meets(w, n, k) >= 0,
        0 <= j < n ==> wire_meets(w, n, k) >= meets(
            compile::key_spec(w[j]),
            compile::key_spec(w[j + 1]),
            k,
        ),
    decreases n,
{
    if n > 0 {
        lemma_meets_least(w, n - 1, j, k);
        assert(meets(compile::key_spec(w[n - 1]), compile::key_spec(w[n]), k) >= 0);
    }
}

proof fn lemma_two_stretches(w: Seq<Pt>, n: int, i: int, j: int, k: Key)
    requires
        0 <= n < w.len(),
        0 <= i < n,
        0 <= j < n,
        i != j,
    ensures
        wire_meets(w, n, k) >= meets(compile::key_spec(w[i]), compile::key_spec(w[i + 1]), k)
            + meets(compile::key_spec(w[j]), compile::key_spec(w[j + 1]), k),
    decreases n,
{
    if i == n - 1 {
        lemma_meets_least(w, n - 1, j, k);
    } else if j == n - 1 {
        lemma_meets_least(w, n - 1, i, k);
    } else {
        lemma_two_stretches(w, n - 1, i, j, k);
    }
}

pub proof fn lemma_wires_least(ws: Seq<Seq<Pt>>, n: int, i: int, k: Key)
    requires
        0 <= n <= ws.len(),
    ensures
        wires_meet(ws, n, k) >= 0,
        0 <= i < n ==> wires_meet(ws, n, k) >= wire_meets(ws[i], ws[i].len() - 1, k),
    decreases n,
{
    if n > 0 {
        lemma_wires_least(ws, n - 1, i, k);
        lemma_meets_any(ws[n - 1], k);
    }
}

proof fn lemma_meets_any(w: Seq<Pt>, k: Key)
    ensures
        wire_meets(w, w.len() - 1, k) >= 0,
{
    if w.len() > 0 {
        lemma_meets_least(w, w.len() - 1, 0, k);
    }
}

/// Two stretches of wire make the connections of both.
proof fn lemma_two_wires(
    ws: Seq<Seq<Pt>>,
    n: int,
    i: int,
    j: int,
    m: int,
    o: int,
    k: Key,
)
    requires
        0 <= n <= ws.len(),
        0 <= i < n,
        0 <= j < ws[i].len() - 1,
        0 <= m < n,
        0 <= o < ws[m].len() - 1,
        i != m || j != o,
    ensures
        wires_meet(ws, n, k) >= meets(
            compile::key_spec(ws[i][j]),
            compile::key_spec(ws[i][j + 1]),
            k,
        ) + meets(compile::key_spec(ws[m][o]), compile::key_spec(ws[m][o + 1]), k),
    decreases n,
{
    lemma_meets_any(ws[n - 1], k);
    lemma_wires_least(ws, n - 1, i, k);
    lemma_wires_least(ws, n - 1, m, k);
    lemma_meets_least(ws[i], ws[i].len() - 1, j, k);
    lemma_meets_least(ws[m], ws[m].len() - 1, o, k);
    if i == n - 1 && m == n - 1 {
        lemma_two_stretches(ws[i], ws[i].len() - 1, j, o, k);
    } else if i < n - 1 && m < n - 1 {
        lemma_two_wires(ws, n - 1, i, j, m, o, k);
    }
}

pub proof fn lemma_pins_least(pins: PinsAtV, n: int, i: int, k: Key)
    requires
        0 <= n <= pins.len(),
    ensures
        pins_meet(pins, n, k) >= 0,
        0 <= i < n && pins[i].0 == k ==> pins_meet(pins, n, k) >= pins[i].1.len(),
    decreases n,
{
    if n > 0 {
        lemma_pins_least(pins, n - 1, i, k);
    }
}

/// A wire that ends on another, away from its ends, is joined to it by a junction.
pub proof fn a_wire_that_ends_on_another_has_a_junction(
    des: DesignV,
    pins: PinsAtV,
    a: Key,
    b: Key,
    c: Key,
    e: Key,
    k: Key,
)
    requires
        runs(des.wires, a, b),
        k == a || k == b,
        runs(des.wires, c, e),
        along(k, c, e),
    ensures
        compile::junctions_spec(des, pins).contains(k.point()),
{
    let ws = des.wires;
    let (i, j) = choose|i: int, j: int| stretch(ws, i, j, a, b);
    let (m, o) = choose|m: int, o: int| stretch(ws, m, o, c, e);
    lemma_along_is_off_its_ends(k, c, e);
    lemma_two_wires(ws, ws.len() as int, i, j, m, o, k);
    lemma_pins_least(pins, pins.len() as int, 0, k);
    a_junction_stands_where_three_connections_meet(des, pins, k);
}

/// A pin on a wire, away from its ends, is joined to it by a junction.
pub proof fn a_pin_on_a_wire_has_a_junction(
    des: DesignV,
    pins: PinsAtV,
    i: int,
    c: Key,
    e: Key,
)
    requires
        0 <= i < pins.len(),
        pins[i].1.len() > 0,
        runs(des.wires, c, e),
        along(pins[i].0, c, e),
    ensures
        compile::junctions_spec(des, pins).contains(pins[i].0.point()),
{
    let ws = des.wires;
    let k = pins[i].0;
    let (m, o) = choose|m: int, o: int| stretch(ws, m, o, c, e);
    lemma_along_is_off_its_ends(k, c, e);
    lemma_wires_least(ws, ws.len() as int, m, k);
    lemma_meets_least(ws[m], ws[m].len() - 1, o, k);
    lemma_pins_least(pins, pins.len() as int, i, k);
    a_junction_stands_where_three_connections_meet(des, pins, k);
}

pub proof fn lemma_along_is_off_its_ends(k: Key, a: Key, b: Key)
    requires
        along(k, a, b),
    ensures
        k != a,
        k != b,
{
    if a.0 != b.0 && a.1 != b.1 {
        let (ux, uy) = (b.0 - a.0, b.1 - a.1);
        let den = ux * ux + uy * uy;
        let t = (k.0 - a.0) * ux + (k.1 - a.1) * uy;
        assert(den < 100 * t && 100 * t < 99 * den);
        assert(den > 0) by (nonlinear_arith)
            requires
                den == ux * ux + uy * uy,
                ux != 0,
        ;
        if k == a {
            assert(t == 0) by (nonlinear_arith)
                requires
                    t == (k.0 - a.0) * ux + (k.1 - a.1) * uy,
                    k.0 == a.0,
                    k.1 == a.1,
            ;
        }
        if k == b {
            assert(t == den) by (nonlinear_arith)
                requires
                    t == (k.0 - a.0) * ux + (k.1 - a.1) * uy,
                    k.0 - a.0 == ux,
                    k.1 - a.1 == uy,
                    den == ux * ux + uy * uy,
            ;
        }
    }
}

// ---------------------------------------------------------------- wires at a point
#[verifier::spinoff_prover]
#[verifier::rlimit(40)]
proof fn lemma_counts(segs: Seq<(Key, Key)>, n: int, k: Key)
    requires
        0 <= n <= segs.len(),
    ensures
        segs_meet(segs, n, k) == check::end_count(segs, k, n) + 2 * compile::passing(segs, k, n),
        check::end_count(segs, k, n) >= 0,
        compile::passing(segs, k, n) >= 0,
        check::end_count(segs, k, n) > 0 <==> ended(segs, n, k),
        compile::passing(segs, k, n) > 0 <==> exists|i: int|
            0 <= i < n && compile::inside_seg(k, (#[trigger] segs[i]).0, segs[i].1),
    decreases n,
{
    if n > 0 {
        lemma_counts(segs, n - 1, k);
        let (a, b) = segs[n - 1];
        touching::lemma_along(k, a, b);
        if along(k, a, b) {
            lemma_along_is_off_its_ends(k, a, b);
            assert(compile::inside_seg(k, segs[n - 1].0, segs[n - 1].1));
        }
        if ended(segs, n - 1, k) {
            let i = choose|i: int| 0 <= i < n - 1 && ((#[trigger] segs[i]).0 == k || segs[i].1 == k);
            assert(segs[i].0 == k || segs[i].1 == k);
        }
        if ended(segs, n, k) {
            let i = choose|i: int| 0 <= i < n && ((#[trigger] segs[i]).0 == k || segs[i].1 == k);
            assert(i < n - 1 ==> ended(segs, n - 1, k));
        }
        if a == k || b == k {
            assert(segs[n - 1].0 == k || segs[n - 1].1 == k);
        }
        if exists|i: int|
            0 <= i < n - 1 && compile::inside_seg(k, (#[trigger] segs[i]).0, segs[i].1) {
            let i = choose|i: int|
                0 <= i < n - 1 && compile::inside_seg(k, (#[trigger] segs[i]).0, segs[i].1);
            assert(compile::inside_seg(k, segs[i].0, segs[i].1));
        }
        if exists|i: int| 0 <= i < n && compile::inside_seg(k, (#[trigger] segs[i]).0, segs[i].1) {
            let i = choose|i: int|
                0 <= i < n && compile::inside_seg(k, (#[trigger] segs[i]).0, segs[i].1);
            if i < n - 1 {
                assert(compile::inside_seg(k, segs[i].0, segs[i].1));
            }
        }
    }
}

/// How many connections wires make at a point, as a check of the sheet counts them.
pub proof fn lemma_wire_counts(ws: Seq<Seq<Pt>>, k: Key)
    ensures
        ({
            let segs = compile::all_keys(ws, ws.len() as int);
            let c = wires_meet(ws, ws.len() as int, k);
            &&& c >= 0
            &&& c >= 1 <==> check::is_end(segs, k) || check::on_any(segs, k)
            &&& c >= 2 <==> check::end_count(segs, k, segs.len() as int) >= 2 || check::on_any(
                segs,
                k,
            )
        }),
{
    let segs = compile::all_keys(ws, ws.len() as int);
    lemma_wires(ws, ws.len() as int, k);
    lemma_counts(segs, segs.len() as int, k);
}

// ---------------------------------------------------------------- on the written sheet
/// A compiled sheet bears a junction at each point with something on it where three connections
/// meet, and at no point where fewer do: whoever reads the sheet finds them there.
pub proof fn a_compiled_sheet_bears_its_junctions(
    des0: DesignV,
    shelf: Shelf,
    st0: StateV,
    t: TrailV,
    des: DesignV,
    st: StateV,
    out: Seq<char>,
    infos: OrderMap<Arc<SymbolInfo>>,
    k: Key,
)
    requires
        compile::compiled(des0, shelf, st0, t, des, st, out),
        roundtrip::all_found(des0, shelf, st0, t),
        readback::sheet_like(des0),
        readback::all_within_reach(roundtrip::junctions_of(des, shelf, t)),
        readback::steady(roundtrip::sheet_of(des, shelf, t)),
        roundtrip::all_told(des, infos),
    ensures
        sexp::loaded(out) is Some,
        ({
            let pins = compile::pin_positions(
                t.power_states[des.power.len() as int],
                des,
                shelf,
            ).1;
            let read = extract::design_of(sexp::loaded(out)->0, infos).junctions;
            &&& noted(des, pins, k) && connections(des, pins, k) >= 3 ==> read.contains(k.point())
            &&& compile::key_ok(k) && (forall|q: Key|
                noted(des, pins, q) ==> #[trigger] compile::key_ok(q)) && connections(
                des,
                pins,
                k,
            ) < 3 ==> !read.contains(k.point())
        }),
{
    let s = roundtrip::a_compiled_design_reads_back(des0, shelf, st0, t, des, st, out, infos);
    let pins = compile::pin_positions(t.power_states[des.power.len() as int], des, shelf).1;
    if noted(des, pins, k) && connections(des, pins, k) >= 3 {
        a_junction_stands_where_three_connections_meet(des, pins, k);
    }
    if compile::key_ok(k) && (forall|q: Key| noted(des, pins, q) ==> #[trigger] compile::key_ok(q))
        && connections(des, pins, k) < 3 {
        no_junction_stands_where_two_connections_meet(des, pins, k);
    }
}

} // verus!
