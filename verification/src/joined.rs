//! What the nets of a sheet are: pins share a net exactly if a chain of wires, points on wires,
//! shared points and equal names leads from one to the other.
use crate::check;
use crate::compile;
use crate::compile::Key;
use crate::model::DesignV;
use crate::names;
use crate::netlist;
use crate::netlist::{ClassesV, NodeV};
use crate::text;
use crate::touching;
use crate::touching::{along, label_counts, marked, runs, stretch};
use vstd::prelude::*;

verus! {

// ---------------------------------------------------------------- links
/// Whether pin `m` of entry `i` stands at a point.
pub open spec fn stands(
    pins: compile::PinsAtV,
    i: int,
    m: int,
    p: Key,
    r: Seq<char>,
    k: Seq<char>,
) -> bool {
    &&& 0 <= i < pins.len()
    &&& 0 <= m < pins[i].1.len()
    &&& pins[i].0 == p
    &&& pins[i].1[m].owner == r
    &&& pins[i].1[m].number == k
}

/// Whether a pin stands at a point.
pub open spec fn pin_stands(
    pins: compile::PinsAtV,
    p: Key,
    r: Seq<char>,
    k: Seq<char>,
) -> bool {
    exists|i: int, m: int| stands(pins, i, m, p, r, k)
}

/// Whether there is an entry of pins, a label or an end of a stretch of wire at a point.
pub open spec fn noted(des: DesignV, pins: compile::PinsAtV, p: Key) -> bool {
    ||| exists|i: int| 0 <= i < pins.len() && (#[trigger] pins[i]).0 == p
    ||| exists|i: int|
        0 <= i < des.labels.len() && compile::key_spec((#[trigger] des.labels[i]).at) == p
    ||| exists|a: Key, b: Key| (p == a || p == b) && #[trigger] runs(des.wires, a, b)
}

/// Whether a point lies on a stretch of wire that begins at another.
pub open spec fn rests(des: DesignV, p: Key, a: Key) -> bool {
    exists|b: Key| #[trigger] runs(des.wires, a, b) && along(p, a, b)
}

/// Whether a name is given to a point, by a label or by a power symbol.
pub open spec fn named(des: DesignV, p: Key, t: Seq<char>) -> bool {
    ||| exists|i: int| #[trigger]
        label_counts(des.labels, i) && compile::key_spec(des.labels[i].at) == p
            && des.labels[i].text == t
    ||| t != "PWR_FLAG"@ && exists|i: int|
        0 <= i < des.power.len() && compile::key_spec((#[trigger] des.power[i]).at) == p
            && des.power[i].net == t
}

/// What directly connects: the two ends of a stretch of wire, a point with something on it and the
/// wire that it lies on, a point and a pin there that is not marked as unconnected, and a point and
/// the name given to it.
pub open spec fn linked(des: DesignV, pins: compile::PinsAtV, x: NodeV, y: NodeV) -> bool {
    match (x, y) {
        (NodeV::Pt(a), NodeV::Pt(b)) => runs(des.wires, a, b) || noted(des, pins, a) && rests(
            des,
            a,
            b,
        ),
        (NodeV::Pt(a), NodeV::Pin(r, k)) => !marked(des, a) && pin_stands(pins, a, r, k),
        (NodeV::Pt(a), NodeV::Net(t)) => named(des, a, t),
        _ => false,
    }
}

/// Whether each node of a path is linked to the next.
pub open spec fn chain(des: DesignV, pins: compile::PinsAtV, path: Seq<NodeV>) -> bool {
    forall|i: int|
        0 <= i < path.len() - 1 ==> linked(des, pins, #[trigger] path[i], path[i + 1]) || linked(
            des,
            pins,
            path[i + 1],
            path[i],
        )
}

/// Whether a path leads from one node to another along links.
pub open spec fn path_between(
    des: DesignV,
    pins: compile::PinsAtV,
    path: Seq<NodeV>,
    x: NodeV,
    y: NodeV,
) -> bool {
    path.len() > 0 && path[0] == x && path.last() == y && chain(des, pins, path)
}

/// Whether some path leads from one node to another.
pub open spec fn leads(des: DesignV, pins: compile::PinsAtV, x: NodeV, y: NodeV) -> bool {
    exists|path: Seq<NodeV>| path_between(des, pins, path, x, y)
}

proof fn lemma_self(des: DesignV, pins: compile::PinsAtV, x: NodeV)
    ensures
        leads(des, pins, x, x),
{
    assert(path_between(des, pins, seq![x], x, x));
}

proof fn lemma_link(des: DesignV, pins: compile::PinsAtV, x: NodeV, y: NodeV)
    requires
        linked(des, pins, x, y),
    ensures
        leads(des, pins, x, y),
{
    assert(path_between(des, pins, seq![x, y], x, y));
}

proof fn lemma_back(des: DesignV, pins: compile::PinsAtV, x: NodeV, y: NodeV)
    requires
        leads(des, pins, x, y),
    ensures
        leads(des, pins, y, x),
{
    let p = choose|p: Seq<NodeV>| path_between(des, pins, p, x, y);
    let n = p.len() as int;
    let q = Seq::new(p.len(), |i: int| p[n - 1 - i]);
    assert forall|i: int| 0 <= i < q.len() - 1 implies linked(des, pins, #[trigger] q[i], q[i + 1])
        || linked(des, pins, q[i + 1], q[i]) by {
        let j = n - 2 - i;
        assert(q[i + 1] == p[j]);
        assert(q[i] == p[j + 1]);
    }
    assert(path_between(des, pins, q, y, x));
}

proof fn lemma_on(des: DesignV, pins: compile::PinsAtV, x: NodeV, y: NodeV, z: NodeV)
    requires
        leads(des, pins, x, y),
        leads(des, pins, y, z),
    ensures
        leads(des, pins, x, z),
{
    let p = choose|p: Seq<NodeV>| path_between(des, pins, p, x, y);
    let q = choose|q: Seq<NodeV>| path_between(des, pins, q, y, z);
    let n = p.len() as int;
    let r = p + q.skip(1);
    assert forall|i: int| 0 <= i < r.len() - 1 implies linked(des, pins, #[trigger] r[i], r[i + 1])
        || linked(des, pins, r[i + 1], r[i]) by {
        if i < n - 1 {
            assert(r[i] == p[i] && r[i + 1] == p[i + 1]);
        } else {
            let j = i - (n - 1);
            assert(r[i + 1] == q[j + 1]);
            assert(r[i] == q[j]);
        }
    }
    assert(r.last() == z) by {
        if q.len() == 1 {
            assert(r =~= p);
        }
    }
    assert(path_between(des, pins, r, x, z));
}

// ---------------------------------------------------------------- classes
pub open spec fn together(u: ClassesV, x: NodeV, y: NodeV) -> bool {
    u.has(x) && u.has(y) && u.class(x) == u.class(y)
}

/// Nothing is together but what a chain connects.
spec fn sound(des: DesignV, pins: compile::PinsAtV, u: ClassesV) -> bool {
    &&& u.wf()
    &&& forall|x: NodeV, y: NodeV| #[trigger] together(u, x, y) ==> leads(des, pins, x, y)
}

/// What was together stays so.
spec fn grown(u: ClassesV, w: ClassesV) -> bool {
    forall|x: NodeV, y: NodeV| #[trigger] together(u, x, y) ==> together(w, x, y)
}

proof fn lemma_has(u: ClassesV, x: NodeV)
    ensures
        u.has(x) <==> u.nodes.contains(x),
{
    netlist::lemma_node_at(u.nodes, x, 0);
    if u.nodes.contains(x) {
        let i = choose|i: int| 0 <= i < u.nodes.len() && u.nodes[i] == x;
        if !u.has(x) {
            assert(u.nodes[i] != x);
        }
    }
}

/// A node that has come up and was together with nothing else stands alone.
#[verifier::spinoff_prover]
#[verifier::rlimit(40)]
proof fn lemma_touch_sound(des: DesignV, pins: compile::PinsAtV, u: ClassesV, a: NodeV)
    requires
        sound(des, pins, u),
    ensures
        sound(des, pins, u.touch(a)),
        grown(u, u.touch(a)),
        u.touch(a).has(a),
{
    let t = u.touch(a);
    netlist::touch_keeps(u, a, a);
    assert forall|x: NodeV, y: NodeV| #[trigger] together(u, x, y) implies together(t, x, y) by {
        netlist::touch_keeps(u, a, x);
        netlist::touch_keeps(u, a, y);
    }
    assert forall|x: NodeV, y: NodeV| #[trigger] together(t, x, y) implies leads(
        des,
        pins,
        x,
        y,
    ) by {
        if u.has(a) {
            assert(together(u, x, y));
        } else {
            netlist::lemma_node_at(t.nodes, x, 0);
            netlist::lemma_node_at(t.nodes, y, 0);
            netlist::lemma_node_at(u.nodes, x, 0);
            netlist::lemma_node_at(u.nodes, y, 0);
            netlist::touch_keeps(u, a, x);
            netlist::touch_keeps(u, a, y);
            lemma_has(u, x);
            lemma_has(u, y);
            lemma_has(t, x);
            lemma_has(t, y);
            if x == y {
                lemma_self(des, pins, x);
            } else if x != a && y != a {
                assert(u.has(x) && u.has(y)) by {
                    let i = node_index(t, x);
                    assert(u.nodes[i] == x);
                    let j = node_index(t, y);
                    assert(u.nodes[j] == y);
                }
                assert(together(u, x, y));
            } else {
                let z = if x == a { y } else { x };
                let j = node_index(t, z);
                assert(u.nodes[j] == z);
                assert(u.has(z));
                let i = node_index(t, a);
                assert(t.nodes[u.nodes.len() as int] == a);
                assert(i == u.nodes.len());
                assert(t.cls[i] == u.nodes.len());
                assert(t.cls[j] == u.cls[j]);
                assert(u.cls[j] < u.cls.len());
                assert(false);
            }
        }
    }
}

spec fn node_index(u: ClassesV, x: NodeV) -> int {
    netlist::node_at(u.nodes, x, 0)
}

/// One link more.
#[verifier::spinoff_prover]
#[verifier::rlimit(40)]
proof fn lemma_join(des: DesignV, pins: compile::PinsAtV, u: ClassesV, a: NodeV, b: NodeV)
    requires
        sound(des, pins, u),
        linked(des, pins, a, b),
    ensures
        sound(des, pins, u.connect(a, b)),
        grown(u, u.connect(a, b)),
        together(u.connect(a, b), a, b),
{
    lemma_touch_sound(des, pins, u, a);
    let t = u.touch(a);
    lemma_touch_sound(des, pins, t, b);
    let w = t.touch(b);
    let c = u.connect(a, b);
    netlist::touch_keeps(t, b, a);
    netlist::touch_keeps(t, b, b);
    assert(w.has(a) && w.has(b));
    assert(w.touch(a) == w);
    assert(w.touch(b) == w);
    assert(c == w.connect(a, b));
    netlist::connecting_joins_two_classes(w, a, b, a, b);
    lemma_link(des, pins, a, b);
    lemma_back(des, pins, a, b);
    assert(c.nodes == w.nodes);
    assert forall|x: NodeV, y: NodeV| #[trigger] together(c, x, y) implies leads(
        des,
        pins,
        x,
        y,
    ) by {
        assert(w.has(x) && w.has(y));
        netlist::connecting_joins_two_classes(w, a, b, x, y);
        if w.class(x) == w.class(y) {
            assert(together(w, x, y));
        } else if w.class(x) == w.class(a) {
            assert(together(w, x, a));
            assert(together(w, b, y));
            lemma_on(des, pins, x, a, b);
            lemma_on(des, pins, x, b, y);
        } else {
            assert(together(w, x, b));
            assert(together(w, a, y));
            lemma_on(des, pins, x, b, a);
            lemma_on(des, pins, x, a, y);
        }
    }
    assert forall|x: NodeV, y: NodeV| #[trigger] together(u, x, y) implies together(c, x, y) by {
        assert(together(t, x, y));
        assert(together(w, x, y));
        netlist::connecting_joins_two_classes(w, a, b, x, y);
    }
}

// ---------------------------------------------------------------- the classes of a sheet
spec fn segs_of(des: DesignV) -> Seq<(Key, Key)> {
    compile::all_keys(des.wires, des.wires.len() as int)
}

spec fn labels_of(des: DesignV) -> Seq<(Key, int)> {
    check::label_points(des.labels, des.labels.len() as int)
}

/// What a sheet connects.
spec fn classes_of(des: DesignV, pins: compile::PinsAtV) -> ClassesV {
    netlist::sheet_classes(des, pins, segs_of(des), labels_of(des))
}

proof fn lemma_segs(des: DesignV, i: int)
    requires
        0 <= i < segs_of(des).len(),
    ensures
        runs(des.wires, segs_of(des)[i].0, segs_of(des)[i].1),
{
    touching::lemma_all_keys(des.wires, des.wires.len() as int);
    let s = segs_of(des)[i];
    assert(touching::runs_among(des.wires, des.wires.len() as int, s.0, s.1));
    let (m, j) = choose|m: int, j: int|
        m < des.wires.len() && stretch(des.wires, m, j, s.0, s.1);
    assert(stretch(des.wires, m, j, s.0, s.1));
}

proof fn lemma_wires(des: DesignV, pins: compile::PinsAtV, u: ClassesV, n: int)
    requires
        sound(des, pins, u),
        0 <= n <= segs_of(des).len(),
    ensures
        ({
            let segs = segs_of(des);
            let w = netlist::wire_classes(u, segs, n);
            &&& sound(des, pins, w)
            &&& grown(u, w)
            &&& forall|i: int|
                0 <= i < n ==> together(
                    w,
                    NodeV::Pt((#[trigger] segs[i]).0),
                    NodeV::Pt(segs[i].1),
                )
        }),
    decreases n,
{
    if n > 0 {
        lemma_wires(des, pins, u, n - 1);
        let segs = segs_of(des);
        lemma_segs(des, n - 1);
        lemma_join(
            des,
            pins,
            netlist::wire_classes(u, segs, n - 1),
            NodeV::Pt(segs[n - 1].0),
            NodeV::Pt(segs[n - 1].1),
        );
    }
}

proof fn lemma_met(des: DesignV, pins: compile::PinsAtV, u: ClassesV, p: Key, n: int)
    requires
        sound(des, pins, u),
        noted(des, pins, p),
        0 <= n <= segs_of(des).len(),
    ensures
        ({
            let segs = segs_of(des);
            let w = netlist::met_classes(u, p, segs, n);
            &&& sound(des, pins, w)
            &&& grown(u, w)
            &&& forall|i: int|
                0 <= i < n && along(p, (#[trigger] segs[i]).0, segs[i].1) ==> together(
                    w,
                    NodeV::Pt(p),
                    NodeV::Pt(segs[i].0),
                )
        }),
    decreases n,
{
    if n > 0 {
        lemma_met(des, pins, u, p, n - 1);
        let segs = segs_of(des);
        lemma_segs(des, n - 1);
        touching::lemma_along(p, segs[n - 1].0, segs[n - 1].1);
        if along(p, segs[n - 1].0, segs[n - 1].1) {
            lemma_join(
                des,
                pins,
                netlist::met_classes(u, p, segs, n - 1),
                NodeV::Pt(p),
                NodeV::Pt(segs[n - 1].0),
            );
        }
    }
}

/// Whether a point was joined to each stretch that it lies on.
spec fn teed(u: ClassesV, des: DesignV, p: Key) -> bool {
    forall|i: int|
        0 <= i < segs_of(des).len() && along(
            p,
            (#[trigger] segs_of(des)[i]).0,
            segs_of(des)[i].1,
        ) ==> together(u, NodeV::Pt(p), NodeV::Pt(segs_of(des)[i].0))
}

proof fn lemma_tees(des: DesignV, pins: compile::PinsAtV, u: ClassesV, pts: Seq<Key>, n: int)
    requires
        sound(des, pins, u),
        forall|j: int| 0 <= j < pts.len() ==> noted(des, pins, #[trigger] pts[j]),
        0 <= n <= pts.len(),
    ensures
        ({
            let w = netlist::tee_classes(u, pts, segs_of(des), n);
            &&& sound(des, pins, w)
            &&& grown(u, w)
            &&& forall|j: int| 0 <= j < n ==> teed(w, des, #[trigger] pts[j])
        }),
    decreases n,
{
    if n > 0 {
        lemma_tees(des, pins, u, pts, n - 1);
        lemma_met(
            des,
            pins,
            netlist::tee_classes(u, pts, segs_of(des), n - 1),
            pts[n - 1],
            segs_of(des).len() as int,
        );
    }
}

proof fn lemma_refs(des: DesignV, pins: compile::PinsAtV, u: ClassesV, i: int, n: int)
    requires
        sound(des, pins, u),
        0 <= i < pins.len(),
        !marked(des, pins[i].0),
        0 <= n <= pins[i].1.len(),
    ensures
        ({
            let w = netlist::ref_classes(u, pins[i].0, pins[i].1, n);
            &&& sound(des, pins, w)
            &&& grown(u, w)
            &&& forall|m: int|
                0 <= m < n ==> together(
                    w,
                    NodeV::Pt(pins[i].0),
                    NodeV::Pin((#[trigger] pins[i].1[m]).owner, pins[i].1[m].number),
                )
        }),
    decreases n,
{
    if n > 0 {
        lemma_refs(des, pins, u, i, n - 1);
        let e = pins[i].1[n - 1];
        assert(stands(pins, i, n - 1, pins[i].0, e.owner, e.number));
        lemma_join(
            des,
            pins,
            netlist::ref_classes(u, pins[i].0, pins[i].1, n - 1),
            NodeV::Pt(pins[i].0),
            NodeV::Pin(e.owner, e.number),
        );
    }
}

/// Whether the pins of an entry were joined to their point.
spec fn pinned(u: ClassesV, pins: compile::PinsAtV, i: int) -> bool {
    forall|m: int|
        0 <= m < pins[i].1.len() ==> together(
            u,
            NodeV::Pt(pins[i].0),
            NodeV::Pin((#[trigger] pins[i].1[m]).owner, pins[i].1[m].number),
        )
}

proof fn lemma_marks(des: DesignV, k: Key)
    ensures
        netlist::marks(des.nc).contains(k) <==> marked(des, k),
{
    let v = netlist::marks(des.nc);
    if v.contains(k) {
        let i = choose|i: int| 0 <= i < v.len() && v[i] == k;
        assert(compile::key_spec(des.nc[i]) == k);
    }
    if marked(des, k) {
        let i = choose|i: int|
            0 <= i < des.nc.len() && compile::key_spec(#[trigger] des.nc[i]) == k;
        assert(v[i] == k);
    }
}

proof fn lemma_pins(des: DesignV, pins: compile::PinsAtV, u: ClassesV, n: int)
    requires
        sound(des, pins, u),
        0 <= n <= pins.len(),
    ensures
        ({
            let w = netlist::pin_classes(u, pins, netlist::marks(des.nc), n);
            &&& sound(des, pins, w)
            &&& grown(u, w)
            &&& forall|i: int| 0 <= i < n && !marked(des, pins[i].0) ==> #[trigger] pinned(
                w,
                pins,
                i,
            )
        }),
    decreases n,
{
    if n > 0 {
        lemma_pins(des, pins, u, n - 1);
        lemma_marks(des, pins[n - 1].0);
        let s = netlist::pin_classes(u, pins, netlist::marks(des.nc), n - 1);
        let w = netlist::pin_classes(u, pins, netlist::marks(des.nc), n);
        if !marked(des, pins[n - 1].0) {
            lemma_refs(des, pins, s, n - 1, pins[n - 1].1.len() as int);
        }
        assert(grown(s, w));
        assert forall|i: int| 0 <= i < n && !marked(des, pins[i].0) implies #[trigger] pinned(
            w,
            pins,
            i,
        ) by {
            if i < n - 1 {
                assert(pinned(s, pins, i));
            }
        }
    }
}

proof fn lemma_labels(des: DesignV, pins: compile::PinsAtV, u: ClassesV, n: int)
    requires
        sound(des, pins, u),
        0 <= n <= labels_of(des).len(),
    ensures
        ({
            let at = labels_of(des);
            let w = netlist::label_classes(u, at, des.labels, n);
            &&& sound(des, pins, w)
            &&& grown(u, w)
            &&& forall|i: int|
                0 <= i < n ==> together(
                    w,
                    NodeV::Pt((#[trigger] at[i]).0),
                    NodeV::Net(des.labels[at[i].1].text),
                )
        }),
    decreases n,
{
    if n > 0 {
        lemma_labels(des, pins, u, n - 1);
        touching::lemma_label_points(des.labels, des.labels.len() as int);
        let e = labels_of(des)[n - 1];
        assert(touching::last_label(des.labels, e.1, des.labels.len() as int));
        assert(label_counts(des.labels, e.1));
        lemma_join(
            des,
            pins,
            netlist::label_classes(u, labels_of(des), des.labels, n - 1),
            NodeV::Pt(e.0),
            NodeV::Net(des.labels[e.1].text),
        );
    }
}

proof fn lemma_power(des: DesignV, pins: compile::PinsAtV, u: ClassesV, n: int)
    requires
        sound(des, pins, u),
        0 <= n <= des.power.len(),
    ensures
        ({
            let w = netlist::power_classes(u, des.power, n);
            &&& sound(des, pins, w)
            &&& grown(u, w)
            &&& forall|i: int|
                0 <= i < n && (#[trigger] des.power[i]).net != "PWR_FLAG"@ ==> together(
                    w,
                    NodeV::Pt(compile::key_spec(des.power[i].at)),
                    NodeV::Net(des.power[i].net),
                )
        }),
    decreases n,
{
    if n > 0 {
        lemma_power(des, pins, u, n - 1);
        let e = des.power[n - 1];
        if e.net != "PWR_FLAG"@ {
            lemma_join(
                des,
                pins,
                netlist::power_classes(u, des.power, n - 1),
                NodeV::Pt(compile::key_spec(e.at)),
                NodeV::Net(e.net),
            );
        }
    }
}

proof fn lemma_once(v: Seq<Key>, n: int)
    requires
        0 <= n <= v.len(),
    ensures
        forall|k: Key| #[trigger]
            netlist::points_once(v, n).contains(k) <==> exists|i: int| 0 <= i < n && v[i] == k,
    decreases n,
{
    if n > 0 {
        lemma_once(v, n - 1);
        let s = netlist::points_once(v, n - 1);
        let t = netlist::points_once(v, n);
        assert forall|k: Key| #[trigger] t.contains(k) <==> exists|i: int|
            0 <= i < n && v[i] == k by {
            if t.contains(k) {
                if s.contains(k) {
                    let i = choose|i: int| 0 <= i < n - 1 && v[i] == k;
                    assert(v[i] == k);
                } else {
                    let j = choose|j: int| 0 <= j < t.len() && t[j] == k;
                    assert(j == s.len());
                    assert(v[n - 1] == k);
                }
            }
            if exists|i: int| 0 <= i < n && v[i] == k {
                let i = choose|i: int| 0 <= i < n && v[i] == k;
                if i < n - 1 {
                    assert(s.contains(k));
                    let j = choose|j: int| 0 <= j < s.len() && s[j] == k;
                    assert(t[j] == k);
                } else if !s.contains(k) {
                    assert(t[s.len() as int] == k);
                }
            }
        }
    }
}

proof fn lemma_ends(segs: Seq<(Key, Key)>, n: int)
    requires
        0 <= n <= segs.len(),
    ensures
        ({
            let v = netlist::seg_ends(segs, n);
            &&& v.len() == 2 * n
            &&& forall|i: int|
                0 <= i < n ==> v[2 * i] == (#[trigger] segs[i]).0 && v[2 * i + 1] == segs[i].1
        }),
    decreases n,
{
    if n > 0 {
        lemma_ends(segs, n - 1);
    }
}

/// The points that are looked at.
spec fn points_of(des: DesignV, pins: compile::PinsAtV) -> Seq<Key> {
    netlist::pin_keys(pins) + netlist::label_keys(labels_of(des)) + netlist::seg_ends(
        segs_of(des),
        segs_of(des).len() as int,
    )
}

proof fn lemma_label_at(des: DesignV, m: int)
    requires
        0 <= m < labels_of(des).len(),
    ensures
        0 <= labels_of(des)[m].1 < des.labels.len(),
        compile::key_spec(des.labels[labels_of(des)[m].1].at) == labels_of(des)[m].0,
{
    touching::lemma_label_points(des.labels, des.labels.len() as int);
    let e = labels_of(des)[m];
    assert(touching::last_label(des.labels, e.1, des.labels.len() as int));
}

proof fn lemma_label_found(des: DesignV, i: int) -> (m: int)
    requires
        0 <= i < des.labels.len(),
    ensures
        0 <= m < labels_of(des).len(),
        labels_of(des)[m].0 == compile::key_spec(des.labels[i].at),
{
    touching::lemma_label_points(des.labels, des.labels.len() as int);
    let at = labels_of(des);
    let l = des.labels[i];
    choose|m: int| 0 <= m < at.len() && (#[trigger] at[m]).0 == compile::key_spec(l.at)
}

/// Each point looked at has something on it.
proof fn lemma_point_noted(des: DesignV, pins: compile::PinsAtV, i: int)
    requires
        0 <= i < points_of(des, pins).len(),
    ensures
        noted(des, pins, points_of(des, pins)[i]),
{
    let p = points_of(des, pins)[i];
    let segs = segs_of(des);
    let at = labels_of(des);
    let a = pins.len() as int;
    let b = at.len() as int;
    if i < a {
        assert(pins[i].0 == p);
    } else if i < a + b {
        lemma_label_at(des, i - a);
        assert(compile::key_spec(des.labels[at[i - a].1].at) == p);
    } else {
        lemma_ends(segs, segs.len() as int);
        let m = (i - a - b) / 2;
        lemma_segs(des, m);
        assert(p == netlist::seg_ends(segs, segs.len() as int)[i - a - b]);
        assert(p == segs[m].0 || p == segs[m].1);
        assert(runs(des.wires, segs[m].0, segs[m].1));
    }
}

proof fn lemma_noted_point(des: DesignV, pins: compile::PinsAtV, p: Key) -> (i: int)
    requires
        noted(des, pins, p),
    ensures
        0 <= i < points_of(des, pins).len(),
        points_of(des, pins)[i] == p,
{
    let segs = segs_of(des);
    let at = labels_of(des);
    let a = pins.len() as int;
    let b = at.len() as int;
    lemma_ends(segs, segs.len() as int);
    if exists|i: int| 0 <= i < pins.len() && (#[trigger] pins[i]).0 == p {
        choose|i: int| 0 <= i < pins.len() && (#[trigger] pins[i]).0 == p
    } else if exists|i: int|
        0 <= i < des.labels.len() && compile::key_spec((#[trigger] des.labels[i]).at) == p {
        let i = choose|i: int|
            0 <= i < des.labels.len() && compile::key_spec((#[trigger] des.labels[i]).at) == p;
        let m = lemma_label_found(des, i);
        a + m
    } else {
        let (x, y) = choose|x: Key, y: Key| (p == x || p == y) && #[trigger] runs(des.wires, x, y);
        let m = lemma_seg_of(des, x, y);
        assert(segs[m] == (x, y));
        if p == x {
            a + b + 2 * m
        } else {
            a + b + 2 * m + 1
        }
    }
}

proof fn lemma_points(des: DesignV, pins: compile::PinsAtV, p: Key)
    ensures
        netlist::points_once(points_of(des, pins), points_of(des, pins).len() as int).contains(p)
            <==> noted(des, pins, p),
{
    let all = points_of(des, pins);
    lemma_once(all, all.len() as int);
    if exists|i: int| 0 <= i < all.len() && all[i] == p {
        let i = choose|i: int| 0 <= i < all.len() && all[i] == p;
        lemma_point_noted(des, pins, i);
    }
    if noted(des, pins, p) {
        let i = lemma_noted_point(des, pins, p);
        assert(all[i] == p);
    }
}

/// The segment of a stretch.
proof fn lemma_seg_of(des: DesignV, a: Key, b: Key) -> (m: int)
    requires
        runs(des.wires, a, b),
    ensures
        0 <= m < segs_of(des).len(),
        segs_of(des)[m] == (a, b),
{
    touching::lemma_all_keys(des.wires, des.wires.len() as int);
    let (i, j) = choose|i: int, j: int| stretch(des.wires, i, j, a, b);
    assert(segs_of(des).contains((a, b)));
    choose|m: int| 0 <= m < segs_of(des).len() && segs_of(des)[m] == (a, b)
}

/// What the classes of a sheet are.
#[verifier::spinoff_prover]
#[verifier::rlimit(40)]
proof fn lemma_classes(des: DesignV, pins: compile::PinsAtV)
    ensures
        sound(des, pins, classes_of(des, pins)),
        forall|x: NodeV, y: NodeV| #[trigger]
            linked(des, pins, x, y) ==> together(classes_of(des, pins), x, y),
{
    let segs = segs_of(des);
    let at = labels_of(des);
    let all = points_of(des, pins);
    let pts = netlist::points_once(all, all.len() as int);
    let u0 = ClassesV::empty();
    assert(sound(des, pins, u0));
    lemma_wires(des, pins, u0, segs.len() as int);
    let u1 = netlist::wire_classes(u0, segs, segs.len() as int);
    assert forall|j: int| 0 <= j < pts.len() implies noted(des, pins, #[trigger] pts[j]) by {
        lemma_points(des, pins, pts[j]);
        assert(pts.contains(pts[j]));
    }
    lemma_tees(des, pins, u1, pts, pts.len() as int);
    let u2 = netlist::tee_classes(u1, pts, segs, pts.len() as int);
    lemma_pins(des, pins, u2, pins.len() as int);
    let u3 = netlist::pin_classes(u2, pins, netlist::marks(des.nc), pins.len() as int);
    lemma_labels(des, pins, u3, at.len() as int);
    let u4 = netlist::label_classes(u3, at, des.labels, at.len() as int);
    lemma_power(des, pins, u4, des.power.len() as int);
    let u = netlist::power_classes(u4, des.power, des.power.len() as int);
    assert(u == classes_of(des, pins));
    assert forall|x: NodeV, y: NodeV| #[trigger] linked(des, pins, x, y) implies together(
        u,
        x,
        y,
    ) by {
        match (x, y) {
            (NodeV::Pt(a), NodeV::Pt(b)) => {
                if runs(des.wires, a, b) {
                    let m = lemma_seg_of(des, a, b);
                    assert(together(u1, x, y));
                    assert(together(u2, x, y));
                    assert(together(u3, x, y));
                    assert(together(u4, x, y));
                } else {
                    let e = choose|e: Key| #[trigger] runs(des.wires, b, e) && along(a, b, e);
                    let m = lemma_seg_of(des, b, e);
                    lemma_points(des, pins, a);
                    let j = choose|j: int| 0 <= j < pts.len() && pts[j] == a;
                    assert(teed(u2, des, pts[j]));
                    assert(segs_of(des)[m] == (b, e));
                    assert(together(u2, x, y));
                    assert(together(u3, x, y));
                    assert(together(u4, x, y));
                }
            },
            (NodeV::Pt(a), NodeV::Pin(r, k)) => {
                let (i, m) = choose|i: int, m: int| stands(pins, i, m, a, r, k);
                assert(pinned(u3, pins, i));
                assert(pins[i].1[m].owner == r);
                assert(together(u3, x, y));
                assert(together(u4, x, y));
            },
            (NodeV::Pt(a), NodeV::Net(t)) => {
                if exists|i: int| #[trigger]
                    label_counts(des.labels, i) && compile::key_spec(des.labels[i].at) == a
                        && des.labels[i].text == t {
                    let i = choose|i: int| #[trigger]
                        label_counts(des.labels, i) && compile::key_spec(des.labels[i].at) == a
                            && des.labels[i].text == t;
                    touching::lemma_label_points(des.labels, des.labels.len() as int);
                    assert(touching::last_label(des.labels, i, des.labels.len() as int));
                    assert(at.contains((a, i)));
                    let m = choose|m: int| 0 <= m < at.len() && at[m] == (a, i);
                    assert(together(u4, x, y));
                } else {
                    let i = choose|i: int|
                        0 <= i < des.power.len() && compile::key_spec((#[trigger] des.power[i]).at)
                            == a && des.power[i].net == t;
                    assert(des.power[i].net != "PWR_FLAG"@);
                }
            },
            _ => {},
        }
    }
}

proof fn lemma_path(
    des: DesignV,
    pins: compile::PinsAtV,
    path: Seq<NodeV>,
    n: int,
)
    requires
        chain(des, pins, path),
        0 <= n < path.len(),
        classes_of(des, pins).has(path[0]),
    ensures
        together(classes_of(des, pins), path[0], path[n]),
    decreases n,
{
    if n > 0 {
        lemma_path(des, pins, path, n - 1);
        lemma_classes(des, pins);
        assert(linked(des, pins, path[n - 1], path[n - 1 + 1]) || linked(
            des,
            pins,
            path[n - 1 + 1],
            path[n - 1],
        ));
    }
}

/// Nodes that have come up are together exactly if a chain connects them.
proof fn lemma_together(des: DesignV, pins: compile::PinsAtV, x: NodeV, y: NodeV)
    requires
        classes_of(des, pins).has(x),
    ensures
        together(classes_of(des, pins), x, y) <==> leads(des, pins, x, y),
{
    lemma_classes(des, pins);
    if leads(des, pins, x, y) {
        let p = choose|p: Seq<NodeV>| path_between(des, pins, p, x, y);
        lemma_path(des, pins, p, p.len() - 1);
    }
}

// ---------------------------------------------------------------- nets
/// Whether a net of the sheet has both of two members.
pub open spec fn one_net(
    nets: Seq<(Seq<char>, Seq<Seq<char>>)>,
    a: Seq<char>,
    b: Seq<char>,
) -> bool {
    exists|i: int| 0 <= i < nets.len() && (#[trigger] nets[i]).1.contains(a) && nets[i].1.contains(b)
}

/// Whether a pin stands on a sheet, at a point that is not marked as unconnected.
pub open spec fn pin_live(
    des: DesignV,
    pins: compile::PinsAtV,
    r: Seq<char>,
    k: Seq<char>,
) -> bool {
    exists|p: Key| !marked(des, p) && #[trigger] pin_stands(pins, p, r, k)
}

/// How a pin is written in a net.
pub open spec fn written(r: Seq<char>, k: Seq<char>) -> Seq<char> {
    r + "."@ + k
}

/// No two pins on a sheet are written the same.
pub open spec fn told_apart(des: DesignV, pins: compile::PinsAtV) -> bool {
    forall|r: Seq<char>, k: Seq<char>, s: Seq<char>, m: Seq<char>|
        #![trigger written(r, k), written(s, m)]
        pin_live(des, pins, r, k) && pin_live(des, pins, s, m) && written(r, k) == written(s, m)
            ==> r == s && k == m
}

/// Index `i` holds a pin of class `c` that is written so.
spec fn member_at(u: ClassesV, c: int, i: int, t: Seq<char>) -> bool {
    &&& 0 <= i < u.nodes.len()
    &&& u.cls[i] == c
    &&& u.nodes[i] is Pin
    &&& !text::starts(u.nodes[i]->Pin_0, "#"@)
    &&& t == written(u.nodes[i]->Pin_0, u.nodes[i]->Pin_1)
}

proof fn lemma_members(u: ClassesV, c: int, n: int, t: Seq<char>)
    requires
        0 <= n <= u.nodes.len(),
    ensures
        netlist::class_members(u, c, n).contains(t) <==> exists|i: int|
            i < n && #[trigger] member_at(u, c, i, t),
    decreases n,
{
    if n > 0 {
        lemma_members(u, c, n - 1, t);
        let s = netlist::class_members(u, c, n - 1);
        let v = netlist::class_members(u, c, n);
        if v.contains(t) {
            if s.contains(t) {
                let i = choose|i: int| i < n - 1 && #[trigger] member_at(u, c, i, t);
                assert(i < n && member_at(u, c, i, t));
            } else {
                let j = choose|j: int| 0 <= j < v.len() && v[j] == t;
                if j < s.len() {
                    assert(s[j] == t);
                }
                assert(member_at(u, c, n - 1, t));
            }
        }
        if exists|i: int| i < n && #[trigger] member_at(u, c, i, t) {
            let i = choose|i: int| i < n && #[trigger] member_at(u, c, i, t);
            if i < n - 1 {
                assert(s.contains(t));
                let j = choose|j: int| 0 <= j < s.len() && s[j] == t;
                assert(v[j] == t);
            } else {
                assert(v == s.push(t));
                assert(v[s.len() as int] == t);
            }
        }
    }
}

proof fn lemma_sorted(v: Seq<Seq<char>>, t: Seq<char>)
    ensures
        names::sorted(v, v.len() as int).contains(t) <==> v.contains(t),
{
    broadcast use vstd::seq_lib::group_to_multiset_ensures;

    let n = v.len() as int;
    names::sorted_is_in_order(v, n);
    assert(v.take(n) =~= v);
    let s = names::sorted(v, n);
    assert(s.to_multiset() == v.to_multiset());
    assert(s.contains(t) <==> s.to_multiset().count(t) > 0);
    assert(v.contains(t) <==> v.to_multiset().count(t) > 0);
}

/// The members of the net of a class.
spec fn members_of(u: ClassesV, c: int) -> Seq<Seq<char>> {
    let pins = netlist::class_members(u, c, u.nodes.len() as int);
    names::sorted(pins, pins.len() as int)
}

/// Whether a net has the members of one of the first `n` classes.
spec fn of_class(u: ClassesV, order: Seq<int>, n: int, e: (Seq<char>, Seq<Seq<char>>)) -> bool {
    exists|j: int| 0 <= j < n && e.1 == members_of(u, #[trigger] order[j])
}

/// Whether one of some nets has these members.
spec fn has_net(v: Seq<(Seq<char>, Seq<Seq<char>>)>, members: Seq<Seq<char>>) -> bool {
    exists|m: int| 0 <= m < v.len() && (#[trigger] v[m]).1 == members
}

/// The nets of one class more.
proof fn lemma_net_step(u: ClassesV, order: Seq<int>, n: int)
    requires
        0 < n <= order.len(),
    ensures
        ({
            let s = netlist::nets_of(u, order, n - 1).nets;
            let v = netlist::nets_of(u, order, n).nets;
            let members = members_of(u, order[n - 1]);
            &&& members.len() == 0 ==> v == s
            &&& members.len() > 0 ==> exists|t: Seq<char>| v == #[trigger] s.push((t, members))
        }),
{
    let s = netlist::nets_of(u, order, n - 1).nets;
    let v = netlist::nets_of(u, order, n).nets;
    let members = members_of(u, order[n - 1]);
    if members.len() > 0 {
        let t = v.last().0;
        assert(v =~= s.push((t, members)));
    }
}

/// Each net is one of a class, and each class with members has its net.
#[verifier::spinoff_prover]
#[verifier::rlimit(40)]
proof fn lemma_nets(u: ClassesV, order: Seq<int>, n: int)
    requires
        0 <= n <= order.len(),
    ensures
        forall|m: int|
            0 <= m < netlist::nets_of(u, order, n).nets.len() ==> of_class(
                u,
                order,
                n,
                #[trigger] netlist::nets_of(u, order, n).nets[m],
            ),
        forall|j: int|
            0 <= j < n && members_of(u, #[trigger] order[j]).len() > 0 ==> has_net(
                netlist::nets_of(u, order, n).nets,
                members_of(u, order[j]),
            ),
    decreases n,
{
    if n > 0 {
        lemma_nets(u, order, n - 1);
        lemma_net_step(u, order, n);
        let s = netlist::nets_of(u, order, n - 1).nets;
        let v = netlist::nets_of(u, order, n).nets;
        let members = members_of(u, order[n - 1]);
        let t = choose|t: Seq<char>| v == #[trigger] s.push((t, members));
        assert forall|m: int| 0 <= m < v.len() implies of_class(u, order, n, #[trigger] v[m]) by {
            if m < s.len() {
                assert(v[m] == s[m]);
                assert(of_class(u, order, n - 1, s[m]));
                let j = choose|j: int|
                    0 <= j < n - 1 && s[m].1 == members_of(u, #[trigger] order[j]);
                assert(v[m].1 == members_of(u, order[j]));
            } else {
                assert(v[m].1 == members_of(u, order[n - 1]));
            }
        }
        assert forall|j: int|
            0 <= j < n && members_of(u, #[trigger] order[j]).len() > 0 implies has_net(
            v,
            members_of(u, order[j]),
        ) by {
            if j < n - 1 {
                let m = choose|m: int|
                    0 <= m < s.len() && (#[trigger] s[m]).1 == members_of(u, order[j]);
                assert(v[m] == s[m]);
            } else {
                assert(v[s.len() as int].1 == members_of(u, order[j]));
            }
        }
    }
}

proof fn lemma_live(des: DesignV, pins: compile::PinsAtV, r: Seq<char>, k: Seq<char>)
    ensures
        pin_live(des, pins, r, k) <==> classes_of(des, pins).has(NodeV::Pin(r, k)),
{
    let u = classes_of(des, pins);
    let x = NodeV::Pin(r, k);
    lemma_has(u, x);
    netlist::nets_divide_the_pins(des, pins, segs_of(des), labels_of(des));
    let nc = netlist::marks(des.nc);
    assert(u.nodes.contains(x) <==> netlist::pin_on(pins, nc, r, k, pins.len() as int));
    if pin_live(des, pins, r, k) {
        let p = choose|p: Key| !marked(des, p) && #[trigger] pin_stands(pins, p, r, k);
        let (i, m) = choose|i: int, m: int| stands(pins, i, m, p, r, k);
        lemma_marks(des, pins[i].0);
        assert(pins[i].1[m].owner == r);
        assert(netlist::refers(pins[i].1, r, k, pins[i].1.len() as int));
        assert(!nc.contains(pins[i].0));
    }
    if netlist::pin_on(pins, nc, r, k, pins.len() as int) {
        let i = choose|i: int|
            0 <= i < pins.len() && !nc.contains((#[trigger] pins[i]).0) && netlist::refers(
                pins[i].1,
                r,
                k,
                pins[i].1.len() as int,
            );
        lemma_marks(des, pins[i].0);
        let m = choose|m: int|
            0 <= m < pins[i].1.len() && (#[trigger] pins[i].1[m]).owner == r
                && pins[i].1[m].number == k;
        assert(stands(pins, i, m, pins[i].0, r, k));
        assert(pin_stands(pins, pins[i].0, r, k));
    }
}

/// Pins of real parts that a chain connects are members of one net.
#[verifier::spinoff_prover]
#[verifier::rlimit(40)]
pub proof fn connected_pins_share_a_net(
    des: DesignV,
    pins: compile::PinsAtV,
    r: Seq<char>,
    k: Seq<char>,
    s: Seq<char>,
    m: Seq<char>,
)
    requires
        pin_live(des, pins, r, k),
        !text::starts(r, "#"@),
        !text::starts(s, "#"@),
        leads(des, pins, NodeV::Pin(r, k), NodeV::Pin(s, m)),
    ensures
        one_net(
            netlist::sheet_nets(
                des,
                pins,
                compile::all_keys(des.wires, des.wires.len() as int),
                check::label_points(des.labels, des.labels.len() as int),
            ).nets,
            written(r, k),
            written(s, m),
        ),
{
    let u = classes_of(des, pins);
    let x = NodeV::Pin(r, k);
    let y = NodeV::Pin(s, m);
    lemma_live(des, pins, r, k);
    lemma_together(des, pins, x, y);
    lemma_classes(des, pins);
    netlist::lemma_node_at(u.nodes, x, 0);
    netlist::lemma_node_at(u.nodes, y, 0);
    let i = node_index(u, x);
    let j = node_index(u, y);
    let c = u.cls[i];
    let n = u.nodes.len() as int;
    assert(member_at(u, c, i, written(r, k)));
    assert(member_at(u, c, j, written(s, m)));
    lemma_members(u, c, n, written(r, k));
    lemma_members(u, c, n, written(s, m));
    let pv = netlist::class_members(u, c, n);
    lemma_sorted(pv, written(r, k));
    lemma_sorted(pv, written(s, m));
    netlist::lemma_order(u, n);
    let order = netlist::class_order(u, n);
    assert(order.contains(u.cls[i]));
    let o = choose|o: int| 0 <= o < order.len() && order[o] == c;
    lemma_nets(u, order, order.len() as int);
    assert(members_of(u, order[o]).len() > 0);
    assert(has_net(
        netlist::nets_of(u, order, order.len() as int).nets,
        members_of(u, order[o]),
    ));
    let nets = netlist::nets_of(u, order, order.len() as int).nets;
    let w = choose|w: int| 0 <= w < nets.len() && (#[trigger] nets[w]).1 == members_of(u, order[o]);
    assert(nets[w].1.contains(written(r, k)));
}

/// Pins of one net are connected by a chain, where no two pins are written the same.
pub proof fn pins_of_a_net_are_connected(
    des: DesignV,
    pins: compile::PinsAtV,
    r: Seq<char>,
    k: Seq<char>,
    s: Seq<char>,
    m: Seq<char>,
)
    requires
        told_apart(des, pins),
        pin_live(des, pins, r, k),
        pin_live(des, pins, s, m),
        one_net(
            netlist::sheet_nets(
                des,
                pins,
                compile::all_keys(des.wires, des.wires.len() as int),
                check::label_points(des.labels, des.labels.len() as int),
            ).nets,
            written(r, k),
            written(s, m),
        ),
    ensures
        leads(des, pins, NodeV::Pin(r, k), NodeV::Pin(s, m)),
{
    let u = classes_of(des, pins);
    let n = u.nodes.len() as int;
    let order = netlist::class_order(u, n);
    let nets = netlist::nets_of(u, order, order.len() as int).nets;
    let w = choose|w: int|
        0 <= w < nets.len() && (#[trigger] nets[w]).1.contains(written(r, k))
            && nets[w].1.contains(written(s, m));
    lemma_nets(u, order, order.len() as int);
    assert(of_class(u, order, order.len() as int, nets[w]));
    let o = choose|o: int|
        0 <= o < order.len() && nets[w].1 == members_of(u, #[trigger] order[o]);
    let c = order[o];
    lemma_member_is(des, pins, c, r, k);
    lemma_member_is(des, pins, c, s, m);
    lemma_together(des, pins, NodeV::Pin(r, k), NodeV::Pin(s, m));
}

/// A pin that is written among the members of a class is in it.
proof fn lemma_member_is(
    des: DesignV,
    pins: compile::PinsAtV,
    c: int,
    r: Seq<char>,
    k: Seq<char>,
)
    requires
        told_apart(des, pins),
        pin_live(des, pins, r, k),
        members_of(classes_of(des, pins), c).contains(written(r, k)),
    ensures
        classes_of(des, pins).has(NodeV::Pin(r, k)),
        classes_of(des, pins).class(NodeV::Pin(r, k)) == c,
{
    let u = classes_of(des, pins);
    let n = u.nodes.len() as int;
    let t = written(r, k);
    lemma_sorted(netlist::class_members(u, c, n), t);
    lemma_members(u, c, n, t);
    let i = choose|i: int| i < n && #[trigger] member_at(u, c, i, t);
    let a = u.nodes[i]->Pin_0;
    let b = u.nodes[i]->Pin_1;
    lemma_has(u, NodeV::Pin(a, b));
    lemma_live(des, pins, a, b);
    assert(u.nodes.contains(u.nodes[i]));
    assert(written(a, b) == written(r, k));
    lemma_classes(des, pins);
    netlist::lemma_node_at(u.nodes, u.nodes[i], 0);
}

// ---------------------------------------------------------------- what joins pins
/// The nets of a design with its pins.
pub open spec fn nets_in(des: DesignV, pins: compile::PinsAtV) -> netlist::NetsV {
    netlist::sheet_nets(
        des,
        pins,
        compile::all_keys(des.wires, des.wires.len() as int),
        check::label_points(des.labels, des.labels.len() as int),
    )
}

/// A pin that stands at an unmarked point is linked to it.
proof fn lemma_pin_link(
    des: DesignV,
    pins: compile::PinsAtV,
    p: Key,
    r: Seq<char>,
    k: Seq<char>,
)
    requires
        !marked(des, p),
        pin_stands(pins, p, r, k),
    ensures
        pin_live(des, pins, r, k),
        leads(des, pins, NodeV::Pt(p), NodeV::Pin(r, k)),
        leads(des, pins, NodeV::Pin(r, k), NodeV::Pt(p)),
{
    lemma_link(des, pins, NodeV::Pt(p), NodeV::Pin(r, k));
    lemma_back(des, pins, NodeV::Pt(p), NodeV::Pin(r, k));
}

/// Two pins at points that a chain connects are members of one net.
proof fn lemma_share(
    des: DesignV,
    pins: compile::PinsAtV,
    p: Key,
    r: Seq<char>,
    k: Seq<char>,
    q: Key,
    s: Seq<char>,
    m: Seq<char>,
)
    requires
        !marked(des, p),
        pin_stands(pins, p, r, k),
        !text::starts(r, "#"@),
        !marked(des, q),
        pin_stands(pins, q, s, m),
        !text::starts(s, "#"@),
        leads(des, pins, NodeV::Pt(p), NodeV::Pt(q)),
    ensures
        one_net(nets_in(des, pins).nets, written(r, k), written(s, m)),
{
    lemma_pin_link(des, pins, p, r, k);
    lemma_pin_link(des, pins, q, s, m);
    lemma_on(des, pins, NodeV::Pin(r, k), NodeV::Pt(p), NodeV::Pt(q));
    lemma_on(des, pins, NodeV::Pin(r, k), NodeV::Pt(q), NodeV::Pin(s, m));
    connected_pins_share_a_net(des, pins, r, k, s, m);
}

/// Two pins of real parts at one point, at the two ends of a stretch of wire, or one on a stretch
/// of wire and one at its end, are members of one net, unless their points are marked as
/// unconnected.
pub proof fn a_wire_joins_the_pins_on_it(
    des: DesignV,
    pins: compile::PinsAtV,
    p: Key,
    r: Seq<char>,
    k: Seq<char>,
    q: Key,
    s: Seq<char>,
    m: Seq<char>,
)
    requires
        !marked(des, p),
        pin_stands(pins, p, r, k),
        !text::starts(r, "#"@),
        !marked(des, q),
        pin_stands(pins, q, s, m),
        !text::starts(s, "#"@),
        p == q || runs(des.wires, p, q) || (exists|e: Key|
            (#[trigger] runs(des.wires, q, e) || runs(des.wires, e, q)) && along(p, q, e)),
    ensures
        one_net(nets_in(des, pins).nets, written(r, k), written(s, m)),
{
    let x = NodeV::Pt(p);
    let y = NodeV::Pt(q);
    let (i, w) = choose|i: int, w: int| stands(pins, i, w, p, r, k);
    assert(pins[i].0 == p);
    assert(noted(des, pins, p));
    if p == q {
        lemma_self(des, pins, x);
    } else if runs(des.wires, p, q) {
        lemma_link(des, pins, x, y);
    } else {
        let e = choose|e: Key|
            (#[trigger] runs(des.wires, q, e) || runs(des.wires, e, q)) && along(p, q, e);
        if runs(des.wires, q, e) {
            lemma_link(des, pins, x, y);
        } else {
            lemma_either_way(p, q, e);
            let z = NodeV::Pt(e);
            assert(rests(des, p, e));
            lemma_link(des, pins, x, z);
            lemma_link(des, pins, z, y);
            lemma_on(des, pins, x, z, y);
        }
    }
    lemma_share(des, pins, p, r, k, q, s, m);
}

/// A point lies on a stretch whichever end is named first.
proof fn lemma_either_way(p: Key, a: Key, b: Key)
    requires
        along(p, a, b),
    ensures
        along(p, b, a),
{
    if a.0 != b.0 && a.1 != b.1 {
        let (px, py, ax, ay, bx, by) = (
            p.0 as int,
            p.1 as int,
            a.0 as int,
            a.1 as int,
            b.0 as int,
            b.1 as int,
        );
        let (ux, uy) = (bx - ax, by - ay);
        let den = ux * ux + uy * uy;
        let t = (px - ax) * ux + (py - ay) * uy;
        let (vx, vy) = (ax - bx, ay - by);
        let t2 = (px - bx) * vx + (py - by) * vy;
        assert(vx * vx + vy * vy == den) by (nonlinear_arith)
            requires
                vx == -ux,
                vy == -uy,
                den == ux * ux + uy * uy,
        ;
        assert(t2 == den - t) by (nonlinear_arith)
            requires
                ux == bx - ax,
                uy == by - ay,
                vx == ax - bx,
                vy == ay - by,
                den == ux * ux + uy * uy,
                t == (px - ax) * ux + (py - ay) * uy,
                t2 == (px - bx) * vx + (py - by) * vy,
        ;
        assert((bx - px) * den + t2 * vx == (ax - px) * den + t * ux) by (nonlinear_arith)
            requires
                ux == bx - ax,
                vx == -ux,
                t2 == den - t,
        ;
        assert((by - py) * den + t2 * vy == (ay - py) * den + t * uy) by (nonlinear_arith)
            requires
                uy == by - ay,
                vy == -uy,
                t2 == den - t,
        ;
    }
}

/// Two pins of real parts at points with the same name are members of one net, wherever they
/// stand.
pub proof fn a_name_joins_the_pins_under_it(
    des: DesignV,
    pins: compile::PinsAtV,
    p: Key,
    r: Seq<char>,
    k: Seq<char>,
    q: Key,
    s: Seq<char>,
    m: Seq<char>,
    t: Seq<char>,
)
    requires
        !marked(des, p),
        pin_stands(pins, p, r, k),
        !text::starts(r, "#"@),
        !marked(des, q),
        pin_stands(pins, q, s, m),
        !text::starts(s, "#"@),
        named(des, p, t),
        named(des, q, t),
    ensures
        one_net(nets_in(des, pins).nets, written(r, k), written(s, m)),
{
    let x = NodeV::Pt(p);
    let y = NodeV::Pt(q);
    let z = NodeV::Net(t);
    lemma_link(des, pins, x, z);
    lemma_link(des, pins, y, z);
    lemma_back(des, pins, y, z);
    lemma_on(des, pins, x, z, y);
    lemma_share(des, pins, p, r, k, q, s, m);
}

// ---------------------------------------------------------------- what nets are called
spec fn name_at(u: ClassesV, c: int, i: int, t: Seq<char>) -> bool {
    0 <= i < u.nodes.len() && u.cls[i] == c && u.nodes[i] == NodeV::Net(t)
}

proof fn lemma_names(u: ClassesV, c: int, n: int, t: Seq<char>)
    requires
        0 <= n <= u.nodes.len(),
    ensures
        netlist::class_names(u, c, n).contains(t) <==> exists|i: int|
            i < n && #[trigger] name_at(u, c, i, t),
    decreases n,
{
    if n > 0 {
        lemma_names(u, c, n - 1, t);
        let s = netlist::class_names(u, c, n - 1);
        let v = netlist::class_names(u, c, n);
        if v.contains(t) {
            if s.contains(t) {
                let i = choose|i: int| i < n - 1 && #[trigger] name_at(u, c, i, t);
                assert(i < n && name_at(u, c, i, t));
            } else {
                let j = choose|j: int| 0 <= j < v.len() && v[j] == t;
                if j < s.len() {
                    assert(s[j] == t);
                }
                assert(name_at(u, c, n - 1, t));
            }
        }
        if exists|i: int| i < n && #[trigger] name_at(u, c, i, t) {
            let i = choose|i: int| i < n && #[trigger] name_at(u, c, i, t);
            if i < n - 1 {
                assert(s.contains(t));
                let j = choose|j: int| 0 <= j < s.len() && s[j] == t;
                assert(v[j] == t);
            } else {
                assert(v == s.push(t));
                assert(v[s.len() as int] == t);
            }
        }
    }
}

spec fn names_of(u: ClassesV, c: int) -> Seq<Seq<char>> {
    let raw = netlist::class_names(u, c, u.nodes.len() as int);
    names::sorted(raw, raw.len() as int)
}

/// A net of a class: its members, and the name that it goes by.
spec fn net_of(u: ClassesV, c: int, e: (Seq<char>, Seq<Seq<char>>)) -> bool {
    &&& e.1 == members_of(u, c)
    &&& names_of(u, c).len() > 0 ==> e.0 == names_of(u, c)[0]
    &&& names_of(u, c).len() == 0 ==> exists|i: nat| e.0 == "N$"@ + #[trigger] text::digits(i)
}

spec fn net_of_some(u: ClassesV, order: Seq<int>, n: int, v: netlist::NetsV, m: int) -> bool {
    exists|j: int|
        0 <= j < n && net_of(u, #[trigger] order[j], v.nets[m]) && (names_of(u, order[j]).len() > 1
            ==> v.warnings.contains(netlist::shorted(names_of(u, order[j]))))
}

#[verifier::spinoff_prover]
#[verifier::rlimit(40)]
proof fn lemma_called(u: ClassesV, order: Seq<int>, n: int)
    requires
        0 <= n <= order.len(),
    ensures
        forall|m: int|
            0 <= m < netlist::nets_of(u, order, n).nets.len() ==> #[trigger] net_of_some(
                u,
                order,
                n,
                netlist::nets_of(u, order, n),
                m,
            ),
    decreases n,
{
    if n > 0 {
        lemma_called(u, order, n - 1);
        let s = netlist::nets_of(u, order, n - 1);
        let v = netlist::nets_of(u, order, n);
        let c = order[n - 1];
        assert forall|m: int| 0 <= m < v.nets.len() implies #[trigger] net_of_some(
            u,
            order,
            n,
            v,
            m,
        ) by {
            if m < s.nets.len() {
                assert(net_of_some(u, order, n - 1, s, m));
                let j = choose|j: int|
                    0 <= j < n - 1 && net_of(u, #[trigger] order[j], s.nets[m]) && (names_of(
                        u,
                        order[j],
                    ).len() > 1 ==> s.warnings.contains(netlist::shorted(names_of(u, order[j]))));
                assert(v.nets[m] == s.nets[m]);
                if names_of(u, order[j]).len() > 1 {
                    let t = netlist::shorted(names_of(u, order[j]));
                    let i = choose|i: int| 0 <= i < s.warnings.len() && s.warnings[i] == t;
                    assert(v.warnings[i] == t);
                }
                assert(net_of(u, order[j], v.nets[m]));
            } else {
                if names_of(u, c).len() > 1 {
                    assert(v.warnings[s.warnings.len() as int] == netlist::shorted(
                        names_of(u, c),
                    ));
                }
                if names_of(u, c).len() == 0 {
                    assert(v.nets[m].0 == "N$"@ + text::digits(s.unnamed + 1));
                }
                assert(net_of(u, order[n - 1], v.nets[m]));
            }
        }
    }
}

/// A net goes by the first in order of the names that a chain connects to its pins, by a number
/// where there is none, and where there are several a warning names them all.
#[verifier::spinoff_prover]
#[verifier::rlimit(40)]
pub proof fn a_net_goes_by_its_first_name(
    des: DesignV,
    pins: compile::PinsAtV,
    w: int,
    r: Seq<char>,
    k: Seq<char>,
)
    requires
        told_apart(des, pins),
        pin_live(des, pins, r, k),
        0 <= w < nets_in(des, pins).nets.len(),
        nets_in(des, pins).nets[w].1.contains(written(r, k)),
    ensures
        forall|t: Seq<char>| #[trigger]
            leads(des, pins, NodeV::Pin(r, k), NodeV::Net(t)) ==> leads(
                des,
                pins,
                NodeV::Pin(r, k),
                NodeV::Net(nets_in(des, pins).nets[w].0),
            ) && !text::before(t, nets_in(des, pins).nets[w].0),
        (forall|t: Seq<char>| !#[trigger] leads(des, pins, NodeV::Pin(r, k), NodeV::Net(t)))
            ==> exists|i: nat|
            nets_in(des, pins).nets[w].0 == "N$"@ + #[trigger] text::digits(i),
        forall|t: Seq<char>, o: Seq<char>|
            t != o && #[trigger] leads(des, pins, NodeV::Pin(r, k), NodeV::Net(t))
                && #[trigger] leads(des, pins, NodeV::Pin(r, k), NodeV::Net(o)) ==> exists|
                v: Seq<Seq<char>>,
            |
                v.contains(t) && v.contains(o) && names::in_order(v) && nets_in(
                    des,
                    pins,
                ).warnings.contains(
                    "nets ["@ + #[trigger] text::joined(text::quoted(v, "'"@, "'"@), ", "@)
                        + "] are shorted together"@,
                ),
{
    let u = classes_of(des, pins);
    let n = u.nodes.len() as int;
    let order = netlist::class_order(u, n);
    let all = nets_in(des, pins);
    let x = NodeV::Pin(r, k);
    lemma_called(u, order, order.len() as int);
    assert(net_of_some(u, order, order.len() as int, all, w));
    let j = choose|j: int|
        0 <= j < order.len() && net_of(u, #[trigger] order[j], all.nets[w]) && (names_of(
            u,
            order[j],
        ).len() > 1 ==> all.warnings.contains(netlist::shorted(names_of(u, order[j]))));
    let c = order[j];
    lemma_member_is(des, pins, c, r, k);
    let v = names_of(u, c);
    let raw = netlist::class_names(u, c, n);
    names::sorted_is_in_order(raw, raw.len() as int);
    assert forall|t: Seq<char>| #[trigger] leads(des, pins, x, NodeV::Net(t)) <==> v.contains(
        t,
    ) by {
        lemma_together(des, pins, x, NodeV::Net(t));
        lemma_sorted(raw, t);
        lemma_names(u, c, n, t);
        lemma_classes(des, pins);
        let y = NodeV::Net(t);
        netlist::lemma_node_at(u.nodes, y, 0);
        if together(u, x, y) {
            assert(name_at(u, c, node_index(u, y), t));
        }
        if v.contains(t) {
            let i = choose|i: int| i < n && #[trigger] name_at(u, c, i, t);
            lemma_has(u, y);
            assert(u.nodes.contains(u.nodes[i]));
            assert(node_index(u, y) == i);
        }
    }
    assert forall|t: Seq<char>| #[trigger] leads(des, pins, x, NodeV::Net(t)) implies leads(
        des,
        pins,
        x,
        NodeV::Net(all.nets[w].0),
    ) && !text::before(t, all.nets[w].0) by {
        assert(v.contains(t));
        let i = choose|i: int| 0 <= i < v.len() && v[i] == t;
        assert(v.contains(v[0]));
        if i == 0 {
            text::before_irreflexive(t);
        }
    }
    if forall|t: Seq<char>| !#[trigger] leads(des, pins, x, NodeV::Net(t)) {
        if v.len() > 0 {
            assert(v.contains(v[0]));
        }
    }
    assert forall|t: Seq<char>, o: Seq<char>|
        t != o && #[trigger] leads(des, pins, x, NodeV::Net(t)) && #[trigger] leads(
            des,
            pins,
            x,
            NodeV::Net(o),
        ) implies exists|q: Seq<Seq<char>>|
        q.contains(t) && q.contains(o) && names::in_order(q) && all.warnings.contains(
            "nets ["@ + #[trigger] text::joined(text::quoted(q, "'"@, "'"@), ", "@)
                + "] are shorted together"@,
        ) by {
        assert(v.contains(t) && v.contains(o));
        assert(v.len() > 1) by {
            let i = choose|i: int| 0 <= i < v.len() && v[i] == t;
            let m = choose|m: int| 0 <= m < v.len() && v[m] == o;
            assert(i != m);
        }
        assert(all.warnings.contains(netlist::shorted(v)));
        assert(netlist::shorted(v) == "nets ["@ + text::joined(
            text::quoted(v, "'"@, "'"@),
            ", "@,
        ) + "] are shorted together"@);
    }
}

/// The nets found on a sheet are those of its design with the pins where they stand: two pins of
/// real parts that a chain connects share one of them.
pub proof fn a_sheet_joins_what_is_connected(
    l: check::Lookup,
    r: Seq<char>,
    k: Seq<char>,
    s: Seq<char>,
    m: Seq<char>,
)
    requires
        !text::starts(r, "#"@),
        !text::starts(s, "#"@),
        ({
            let pins = compile::pin_positions(l.st, l.des, l.shelf).1;
            pin_live(l.des, pins, r, k) && leads(l.des, pins, NodeV::Pin(r, k), NodeV::Pin(s, m))
        }),
    ensures
        one_net(check::nets_on(l).nets, written(r, k), written(s, m)),
{
    let pins = compile::pin_positions(l.st, l.des, l.shelf).1;
    connected_pins_share_a_net(l.des, pins, r, k, s, m);
}

} // verus!
