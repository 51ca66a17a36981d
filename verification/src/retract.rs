//! Stubs that would touch a foreign net are drawn back onto their pins.
use crate::emit;
use crate::emit::{point_on_segment, snap_point, Dir, PinLabelV, SchematicWriter, WriterV};
use crate::geom::Pt;
use crate::order;
use crate::order::order_by_name;
use crate::text;
use crate::text::{same, starts_with};
use vstd::prelude::*;

verus! {

pub type Anchor = (Pt, Seq<char>);

pub type Run = (Pt, Pt, Seq<char>);

/// Points that power symbols among the first `n` instances occupy.
pub open spec fn power_points(v: Seq<emit::InstanceV>, n: int) -> Seq<Anchor>
    decreases n,
{
    if n <= 0 {
        Seq::empty()
    } else if text::starts(v[n - 1].lib_id, "power:"@) {
        power_points(v, n - 1).push((emit::snap_of(v[n - 1].at), v[n - 1].value))
    } else {
        power_points(v, n - 1)
    }
}

/// The net that stands for an open pin.
pub open spec fn open_net() -> Seq<char> {
    "\0no_connect"@
}

/// The net that stands for a wire of no known net.
pub open spec fn power_net() -> Seq<char> {
    "\0power_wire"@
}

pub open spec fn open_points(v: Seq<emit::MarkV>) -> Seq<Anchor> {
    Seq::new(v.len(), |i: int| (emit::snap_of(v[i].at), open_net()))
}

/// Points that labels occupy: the pin of a label on a stub, else the label's own place.
pub open spec fn label_points(v: Seq<PinLabelV>) -> Seq<Anchor> {
    Seq::new(
        v.len(),
        |i: int|
            (
                emit::snap_of(
                    match v[i].stub {
                        Some(p) => p,
                        None => v[i].at,
                    },
                ),
                v[i].net,
            ),
    )
}

/// The ends of wires of known nets.
pub open spec fn wire_points(v: Seq<emit::WireV>, n: int) -> Seq<Anchor>
    decreases n,
{
    if n <= 0 {
        Seq::empty()
    } else {
        let rest = wire_points(v, n - 1);
        match v[n - 1].net {
            Some(net) => rest.push((emit::snap_of(v[n - 1].a), net)).push(
                (emit::snap_of(v[n - 1].b), net),
            ),
            None => rest,
        }
    }
}

pub open spec fn wire_runs(v: Seq<emit::WireV>) -> Seq<Run> {
    Seq::new(
        v.len(),
        |i: int|
            (
                v[i].a,
                v[i].b,
                match v[i].net {
                    Some(n) => n,
                    None => power_net(),
                },
            ),
    )
}

pub open spec fn all_points(w: WriterV) -> Seq<Anchor> {
    power_points(w.instances, w.instances.len() as int) + open_points(w.no_connects) + label_points(
        w.labels,
    ) + wire_points(w.wires, w.wires.len() as int)
}

/// Whether an anchor of another net is at the end of a stub or on it.
pub open spec fn anchor_hit(a: Anchor, net: Seq<char>, pin: Pt, end: Pt) -> bool {
    a.1 != net && (a.0 == emit::snap_of(end) || emit::on_line(a.0, pin, end))
}

/// Whether the end of a stub is on a run of another net.
pub open spec fn run_hit(r: Run, net: Seq<char>, end: Pt) -> bool {
    r.2 != net && emit::on_line(end, r.0, r.1)
}

/// Whether a stub touches another net.
pub open spec fn collides(pts: Seq<Anchor>, runs: Seq<Run>, net: Seq<char>, pin: Pt, end: Pt) -> bool {
    ||| exists|i: int| 0 <= i < pts.len() && #[trigger] anchor_hit(pts[i], net, pin, end)
    ||| exists|i: int| 0 <= i < runs.len() && #[trigger] run_hit(runs[i], net, end)
}

/// The sheet with the occupied points and runs as stubs are settled.
#[verifier::ext_equal]
pub struct SettleV {
    pub w: WriterV,
    pub pts: Seq<Anchor>,
    pub runs: Seq<Run>,
}

/// One stub settled: drawn back onto its pin where it touches another net, drawn otherwise. It runs
/// on the grid.
pub open spec fn settle(st: SettleV, i: int) -> SettleV {
    let l = st.w.labels[i];
    let end = emit::snap_of(l.at);
    match l.stub {
        None => st,
        Some(p) => if collides(st.pts, st.runs, l.net, emit::snap_of(p), end) {
            SettleV {
                w: WriterV {
                    labels: st.w.labels.update(
                        i,
                        PinLabelV { at: p, dir: Dir::East, stub: None, ..l },
                    ),
                    ..st.w
                },
                ..st
            }
        } else {
            let pin = emit::snap_of(p);
            SettleV {
                w: st.w.with_wire(pin, end, Some(l.net)),
                pts: st.pts.push((end, l.net)),
                runs: st.runs.push((pin, end, l.net)),
            }
        },
    }
}

pub open spec fn settled(st: SettleV, ord: Seq<int>, n: int) -> SettleV
    decreases n,
{
    if n <= 0 {
        st
    } else {
        settle(settled(st, ord, n - 1), ord[n - 1])
    }
}

pub open spec fn label_keys(v: Seq<PinLabelV>) -> Seq<Seq<char>> {
    Seq::new(v.len(), |i: int| v[i].key)
}

/// Positions in ascending order of keys.
pub open spec fn key_order(keys: Seq<Seq<char>>) -> Seq<int> {
    order::by_name(Seq::new(keys.len(), |i: int| 0i64), keys)
}

pub open spec fn settle_start(w: WriterV) -> SettleV {
    SettleV { w, pts: all_points(w), runs: wire_runs(w.wires) }
}

/// The sheet after its stubs have been settled in the order of their keys.
pub open spec fn retracted(w: WriterV) -> WriterV {
    settled(settle_start(w), key_order(label_keys(w.labels)), w.labels.len() as int).w
}

pub(crate) fn order_keys(keys: &Vec<String>) -> (r: Vec<usize>)
    ensures
        order::as_ints(r@) == key_order(text::views(keys@)),
        r@.len() == keys@.len(),
        forall|i: int| 0 <= i < r@.len() ==> #[trigger] r@[i] < keys@.len(),
{
    let mut zeros: Vec<i64> = Vec::new();
    let mut i: usize = 0;
    while i < keys.len()
        invariant
            i <= keys@.len(),
            zeros@.len() == i,
            forall|k: int| 0 <= k < i ==> #[trigger] zeros@[k] == 0i64,
        decreases keys@.len() - i,
    {
        zeros.push(0);
        i += 1;
    }
    assert(zeros@ =~= Seq::new(text::views(keys@).len(), |i: int| 0i64));
    order_by_name(&zeros, keys)
}

pub open spec fn anchors_v(v: Seq<(Pt, String)>) -> Seq<Anchor> {
    Seq::new(v.len(), |i: int| (v[i].0, v[i].1@))
}

pub open spec fn runs_v(v: Seq<(Pt, Pt, String)>) -> Seq<Run> {
    Seq::new(v.len(), |i: int| (v[i].0, v[i].1, v[i].2@))
}

pub(crate) fn push_anchor(v: &mut Vec<(Pt, String)>, p: Pt, net: &str)
    ensures
        anchors_v(final(v)@) == anchors_v(old(v)@).push((p, net@)),
{
    let ghost v0 = anchors_v(v@);
    v.push((p, net.to_owned()));
    assert(anchors_v(v@) =~= v0.push((p, net@)));
}

fn push_run(v: &mut Vec<(Pt, Pt, String)>, a: Pt, b: Pt, net: &str)
    ensures
        runs_v(final(v)@) == runs_v(old(v)@).push((a, b, net@)),
{
    let ghost v0 = runs_v(v@);
    v.push((a, b, net.to_owned()));
    assert(runs_v(v@) =~= v0.push((a, b, net@)));
}

fn find_points(w: &SchematicWriter) -> (r: Vec<(Pt, String)>)
    ensures
        anchors_v(r@) == all_points(w@),
{
    let ghost wv = w@;
    let mut r: Vec<(Pt, String)> = Vec::new();
    let mut i: usize = 0;
    assert(anchors_v(r@) =~= power_points(wv.instances, 0));
    while i < w.instances.len()
        invariant
            i <= w.instances@.len(),
            wv.instances == emit::instances_v(w.instances@),
            anchors_v(r@) == power_points(wv.instances, i as int),
        decreases w.instances@.len() - i,
    {
        assert(wv.instances[i as int] == w.instances@[i as int]@);
        if starts_with(w.instances[i].lib_id.as_str(), "power:") {
            push_anchor(
                &mut r,
                snap_point(w.instances[i].at),
                w.instances[i].value.as_str(),
            );
        }
        i += 1;
    }
    let ghost a = anchors_v(r@);
    let ghost want = open_points(wv.no_connects);
    i = 0;
    assert(anchors_v(r@) =~= a + want.take(0));
    while i < w.no_connects.len()
        invariant
            i <= w.no_connects@.len(),
            wv.no_connects == emit::marks_v(w.no_connects@),
            want == open_points(wv.no_connects),
            anchors_v(r@) == a + want.take(i as int),
        decreases w.no_connects@.len() - i,
    {
        assert(wv.no_connects[i as int] == w.no_connects@[i as int]@);
        push_anchor(&mut r, snap_point(w.no_connects[i].at), "\0no_connect");
        assert(want.take(i + 1) =~= want.take(i as int).push(want[i as int]));
        assert(anchors_v(r@) =~= a + want.take(i + 1));
        i += 1;
    }
    assert(want.take(i as int) =~= want);
    let ghost b = anchors_v(r@);
    let ghost want2 = label_points(wv.labels);
    i = 0;
    assert(anchors_v(r@) =~= b + want2.take(0));
    while i < w.labels.len()
        invariant
            i <= w.labels@.len(),
            wv.labels == emit::labels_v(w.labels@),
            want2 == label_points(wv.labels),
            anchors_v(r@) == b + want2.take(i as int),
        decreases w.labels@.len() - i,
    {
        assert(wv.labels[i as int] == w.labels@[i as int]@);
        let p = match w.labels[i].stub {
            Some(p) => p,
            None => w.labels[i].at,
        };
        push_anchor(&mut r, snap_point(p), w.labels[i].net.as_str());
        assert(want2.take(i + 1) =~= want2.take(i as int).push(want2[i as int]));
        assert(anchors_v(r@) =~= b + want2.take(i + 1));
        i += 1;
    }
    assert(want2.take(i as int) =~= want2);
    let ghost c = anchors_v(r@);
    i = 0;
    assert(anchors_v(r@) =~= c + wire_points(wv.wires, 0));
    while i < w.wires.len()
        invariant
            i <= w.wires@.len(),
            wv.wires == emit::wires_v(w.wires@),
            anchors_v(r@) == c + wire_points(wv.wires, i as int),
        decreases w.wires@.len() - i,
    {
        assert(wv.wires[i as int] == w.wires@[i as int]@);
        match &w.wires[i].net {
            Some(n) => {
                push_anchor(&mut r, snap_point(w.wires[i].a), n.as_str());
                push_anchor(&mut r, snap_point(w.wires[i].b), n.as_str());
            },
            None => {},
        }
        assert(anchors_v(r@) =~= c + wire_points(wv.wires, i + 1));
        i += 1;
    }
    assert(anchors_v(r@) =~= all_points(wv));
    r
}

fn find_runs(w: &SchematicWriter) -> (r: Vec<(Pt, Pt, String)>)
    ensures
        runs_v(r@) == wire_runs(w@.wires),
{
    let ghost wv = w@.wires;
    let ghost want = wire_runs(wv);
    let mut r: Vec<(Pt, Pt, String)> = Vec::new();
    let mut i: usize = 0;
    assert(runs_v(r@) =~= want.take(0));
    while i < w.wires.len()
        invariant
            i <= w.wires@.len(),
            wv == emit::wires_v(w.wires@),
            want == wire_runs(wv),
            runs_v(r@) == want.take(i as int),
        decreases w.wires@.len() - i,
    {
        assert(wv[i as int] == w.wires@[i as int]@);
        let n = match &w.wires[i].net {
            Some(n) => n.as_str(),
            None => "\0power_wire",
        };
        push_run(&mut r, w.wires[i].a, w.wires[i].b, n);
        assert(want.take(i + 1) =~= want.take(i as int).push(want[i as int]));
        i += 1;
    }
    assert(want.take(i as int) =~= want);
    r
}

fn does_collide(
    pts: &Vec<(Pt, String)>,
    runs: &Vec<(Pt, Pt, String)>,
    net: &str,
    pin: Pt,
    end: Pt,
) -> (r: bool)
    ensures
        r == collides(anchors_v(pts@), runs_v(runs@), net@, pin, end),
{
    let ghost pv = anchors_v(pts@);
    let ghost rv = runs_v(runs@);
    let e = snap_point(end);
    let mut i: usize = 0;
    while i < pts.len()
        invariant
            i <= pts@.len(),
            pv == anchors_v(pts@),
            e == emit::snap_of(end),
            forall|k: int| 0 <= k < i ==> !#[trigger] anchor_hit(pv[k], net@, pin, end),
        decreases pts@.len() - i,
    {
        assert(pv[i as int] == (pts@[i as int].0, pts@[i as int].1@));
        let p = pts[i].0;
        if !same(pts[i].1.as_str(), net) && ((p.x == e.x && p.y == e.y) || point_on_segment(
            p,
            pin,
            end,
        )) {
            assert(anchor_hit(pv[i as int], net@, pin, end));
            return true;
        }
        i += 1;
    }
    i = 0;
    while i < runs.len()
        invariant
            i <= runs@.len(),
            rv == runs_v(runs@),
            forall|k: int| 0 <= k < i ==> !#[trigger] run_hit(rv[k], net@, end),
        decreases runs@.len() - i,
    {
        assert(rv[i as int] == (runs@[i as int].0, runs@[i as int].1, runs@[i as int].2@));
        if !same(runs[i].2.as_str(), net) && point_on_segment(end, runs[i].0, runs[i].1) {
            assert(run_hit(rv[i as int], net@, end));
            return true;
        }
        i += 1;
    }
    false
}

impl SchematicWriter {
    /// Draws back every stub that would touch another net, and draws the wires of the others. A
    /// second call changes nothing.
    pub fn retract_colliding_stubs(&mut self)
        ensures
            final(self)@ == retracted(old(self)@),
            retracted(final(self)@) == final(self)@,
    {
        let ghost w0 = self@;
        let mut pts = find_points(self);
        let mut runs = find_runs(self);
        let mut keys: Vec<String> = Vec::new();
        let mut i: usize = 0;
        while i < self.labels.len()
            invariant
                i <= self.labels@.len(),
                self@ == w0,
                w0.labels == emit::labels_v(self.labels@),
                keys@.len() == i,
                forall|k: int| 0 <= k < i ==> (#[trigger] keys@[k])@ == w0.labels[k].key,
            decreases self.labels@.len() - i,
        {
            assert(w0.labels[i as int] == self.labels@[i as int]@);
            keys.push(self.labels[i].key.clone());
            i += 1;
        }
        assert(text::views(keys@) =~= label_keys(w0.labels));
        let ord = order_keys(&keys);
        let ghost start = settle_start(w0);
        let ghost o = order::as_ints(ord@);
        let n = ord.len();
        let mut k: usize = 0;
        while k < n
            invariant
                k <= n,
                n == ord@.len(),
                n == w0.labels.len(),
                self.labels@.len() == n,
                o == order::as_ints(ord@),
                forall|j: int| 0 <= j < n ==> #[trigger] ord@[j] < n,
                (SettleV { w: self@, pts: anchors_v(pts@), runs: runs_v(runs@) }) == settled(
                    start,
                    o,
                    k as int,
                ),
            decreases n - k,
        {
            let ghost st = settled(start, o, k as int);
            let j = ord[k];
            assert(o[k as int] == j);
            assert(st.w.labels[j as int] == self.labels@[j as int]@);
            match self.labels[j].stub {
                None => {},
                Some(p) => {
                    let pin = snap_point(p);
                    let end = snap_point(self.labels[j].at);
                    let net = self.labels[j].net.clone();
                    if does_collide(&pts, &runs, net.as_str(), pin, end) {
                        let ghost before = self.labels@;
                        self.labels[j].at = p;
                        self.labels[j].dir = Dir::East;
                        self.labels[j].stub = None;
                        proof {
                            let l = st.w.labels[j as int];
                            assert(emit::labels_v(self.labels@) =~= st.w.labels.update(
                                j as int,
                                PinLabelV { at: p, dir: Dir::East, stub: None, ..l },
                            ));
                        }
                        assert(self@ =~= settle(st, j as int).w);
                    } else {
                        let ghost lb = self.labels@;
                        self.add_wire_on_net(pin, end, net.as_str());
                        assert(self@.labels.len() == n);
                        push_anchor(&mut pts, end, net.as_str());
                        push_run(&mut runs, pin, end, net.as_str());
                    }
                },
            }
            k += 1;
        }
        assert(n == w0.labels.len());
        proof {
            settling_twice_is_settling_once(w0);
        }
    }
}

// ---------------------------------------------------------------- settling twice
spec fn each_in<T>(a: Seq<T>, b: Seq<T>) -> bool {
    forall|i: int| 0 <= i < a.len() ==> b.contains(#[trigger] a[i])
}

/// What holds of a label once it has been settled with its stub kept.
spec fn stands_clear(st: SettleV, i: int) -> bool {
    let l = st.w.labels[i];
    match l.stub {
        None => true,
        Some(q) => {
            let p = emit::snap_of(q);
            let e = emit::snap_of(l.at);
            &&& !collides(st.pts, st.runs, l.net, p, e)
            &&& st.pts.contains((e, l.net))
            &&& st.runs.contains((p, e, l.net))
            &&& (p == e || emit::has_wire(st.w.wires, emit::wire_key(p, e)))
        },
    }
}

spec fn same_label(a: PinLabelV, b: PinLabelV) -> bool {
    ||| a == b
    ||| (b.stub is Some && a == (PinLabelV { at: b.stub->0, dir: Dir::East, stub: None, ..b }))
}

spec fn in_step(w: WriterV, st: SettleV, o: Seq<int>, k: int) -> bool {
    &&& st.w.labels.len() == w.labels.len()
    &&& st.w.instances == w.instances
    &&& st.w.no_connects == w.no_connects
    &&& forall|i: int| 0 <= i < w.labels.len() ==> same_label(#[trigger] st.w.labels[i], w.labels[i])
    &&& forall|j: int| 0 <= j < k ==> stands_clear(st, #[trigger] o[j])
    &&& each_in(all_points(st.w), st.pts)
    &&& each_in(wire_runs(st.w.wires), st.runs)
}

proof fn lemma_points_kept(a: Seq<PinLabelV>, b: Seq<PinLabelV>)
    requires
        a.len() == b.len(),
        forall|i: int| 0 <= i < b.len() ==> same_label(#[trigger] a[i], b[i]),
    ensures
        label_points(a) == label_points(b),
        label_keys(a) == label_keys(b),
{
    assert forall|i: int| 0 <= i < b.len() implies label_points(a)[i] == label_points(b)[i] by {
        assert(same_label(a[i], b[i]));
    }
    assert(label_points(a) =~= label_points(b));
    assert forall|i: int| 0 <= i < b.len() implies label_keys(a)[i] == label_keys(b)[i] by {
        assert(same_label(a[i], b[i]));
    }
    assert(label_keys(a) =~= label_keys(b));
}

proof fn lemma_in_parts(w: WriterV, b: Seq<Anchor>)
    ensures
        each_in(all_points(w), b) <==> {
            &&& each_in(power_points(w.instances, w.instances.len() as int), b)
            &&& each_in(open_points(w.no_connects), b)
            &&& each_in(label_points(w.labels), b)
            &&& each_in(wire_points(w.wires, w.wires.len() as int), b)
        },
{
    let p = power_points(w.instances, w.instances.len() as int);
    let q = open_points(w.no_connects);
    let l = label_points(w.labels);
    let m = wire_points(w.wires, w.wires.len() as int);
    let all = all_points(w);
    assert(all == p + q + l + m);
    if each_in(all, b) {
        assert forall|i: int| 0 <= i < p.len() implies b.contains(#[trigger] p[i]) by {
            assert(all[i] == p[i]);
        }
        assert forall|i: int| 0 <= i < q.len() implies b.contains(#[trigger] q[i]) by {
            assert(all[p.len() + i] == q[i]);
        }
        assert forall|i: int| 0 <= i < l.len() implies b.contains(#[trigger] l[i]) by {
            assert(all[p.len() + q.len() + i] == l[i]);
        }
        assert forall|i: int| 0 <= i < m.len() implies b.contains(#[trigger] m[i]) by {
            assert(all[p.len() + q.len() + l.len() + i] == m[i]);
        }
    }
    if each_in(p, b) && each_in(q, b) && each_in(l, b) && each_in(m, b) {
        assert forall|i: int| 0 <= i < all.len() implies b.contains(#[trigger] all[i]) by {
            if i < p.len() {
                assert(all[i] == p[i]);
            } else if i < p.len() + q.len() {
                assert(all[i] == q[i - p.len()]);
            } else if i < p.len() + q.len() + l.len() {
                assert(all[i] == l[i - p.len() - q.len()]);
            } else {
                assert(all[i] == m[i - p.len() - q.len() - l.len()]);
            }
        }
    }
}

proof fn lemma_push_in<T>(a: Seq<T>, b: Seq<T>, x: T)
    requires
        each_in(a, b),
    ensures
        each_in(a, b.push(x)),
        b.push(x).contains(x),
        forall|y: T| b.contains(y) ==> #[trigger] b.push(x).contains(y),
{
    assert(b.push(x)[b.len() as int] == x);
    assert forall|y: T| b.contains(y) implies #[trigger] b.push(x).contains(y) by {
        let i = choose|i: int| 0 <= i < b.len() && b[i] == y;
        assert(b.push(x)[i] == y);
    }
}

/// A stub kept before does not collide with one kept after it.
proof fn lemma_still_clear(st: SettleV, i: int, pin: Pt, end: Pt, net: Seq<char>)
    requires
        stands_clear(st, i),
        !collides(st.pts, st.runs, net, pin, end),
        emit::snap_of(end) == end,
        emit::snap_of(pin) == pin,
    ensures
        stands_clear(
            SettleV {
                w: st.w.with_wire(pin, end, Some(net)),
                pts: st.pts.push((end, net)),
                runs: st.runs.push((pin, end, net)),
            },
            i,
        ),
{
    let l = st.w.labels[i];
    let e = emit::snap_of(l.at);
    let st2 = SettleV {
        w: st.w.with_wire(pin, end, Some(net)),
        pts: st.pts.push((end, net)),
        runs: st.runs.push((pin, end, net)),
    };
    match l.stub {
        None => {},
        Some(q) => {
            let p = emit::snap_of(q);
            lemma_snap(l.at);
            lemma_push_in(st.pts, st.pts, (end, net));
            lemma_push_in(st.runs, st.runs, (pin, end, net));
            let a = choose|a: int| 0 <= a < st.pts.len() && st.pts[a] == (e, l.net);
            let b = choose|b: int| 0 <= b < st.runs.len() && st.runs[b] == (p, e, l.net);
            if l.net != net {
                assert(!anchor_hit(st.pts[a], net, pin, end));
                assert(!run_hit(st.runs[b], net, end));
            }
            assert forall|k: int| 0 <= k < st2.pts.len() implies !#[trigger] anchor_hit(
                st2.pts[k],
                l.net,
                p,
                e,
            ) by {
                if k < st.pts.len() {
                    assert(st2.pts[k] == st.pts[k]);
                    assert(!anchor_hit(st.pts[k], l.net, p, e));
                } else if l.net != net {
                    assert(!emit::on_line(end, p, e));
                    if end == e {
                        assert(emit::on_line(end, p, e)) by {
                            lemma_end_on_line(p, e);
                        }
                    }
                }
            }
            assert forall|k: int| 0 <= k < st2.runs.len() implies !#[trigger] run_hit(
                st2.runs[k],
                l.net,
                e,
            ) by {
                if k < st.runs.len() {
                    assert(st2.runs[k] == st.runs[k]);
                    assert(!run_hit(st.runs[k], l.net, e));
                }
            }
            lemma_wire_kept(st.w, pin, end, net, emit::wire_key(p, e));
        },
    }
}

proof fn lemma_snap(p: Pt)
    ensures
        emit::snap_of(emit::snap_of(p)) == emit::snap_of(p),
{
    emit::snapping_twice_is_snapping_once(p.x as int);
    emit::snapping_twice_is_snapping_once(p.y as int);
}

proof fn lemma_end_on_line(a: Pt, b: Pt)
    ensures
        emit::on_line(b, a, b),
{
    let x = emit::apart(b.x, a.x);
    let y = emit::apart(b.y, a.y);
    assert(x * y == y * x) by (nonlinear_arith);
}

proof fn lemma_wire_kept(w: WriterV, a: Pt, b: Pt, net: Seq<char>, key: Seq<char>)
    ensures
        emit::has_wire(w.wires, key) ==> emit::has_wire(w.with_wire(a, b, Some(net)).wires, key),
        emit::snap_of(a) == emit::snap_of(b) || emit::has_wire(
            w.with_wire(a, b, Some(net)).wires,
            emit::wire_key(emit::snap_of(a), emit::snap_of(b)),
        ),
{
    let v = w.with_wire(a, b, Some(net)).wires;
    if emit::has_wire(w.wires, key) {
        let i = choose|i: int| 0 <= i < w.wires.len() && (#[trigger] w.wires[i]).key == key;
        assert(v[i].key == key);
    }
    if emit::snap_of(a) != emit::snap_of(b) && !emit::has_wire(
        w.wires,
        emit::wire_key(emit::snap_of(a), emit::snap_of(b)),
    ) {
        assert(v[w.wires.len() as int].key == emit::wire_key(emit::snap_of(a), emit::snap_of(b)));
    }
}

proof fn lemma_step(w: WriterV, st: SettleV, o: Seq<int>, k: int)
    requires
        0 <= k < o.len(),
        o.len() == w.labels.len(),
        forall|j: int| 0 <= j < o.len() ==> 0 <= #[trigger] o[j] < o.len(),
        in_step(w, st, o, k),
    ensures
        in_step(w, settle(st, o[k]), o, k + 1),
{
    let i = o[k];
    let st2 = settle(st, i);
    let l = st.w.labels[i];
    assert(same_label(l, w.labels[i]));
    lemma_points_kept(st.w.labels, w.labels);
    lemma_in_parts(st.w, st.pts);
    match l.stub {
        None => {
            assert(stands_clear(st, i));
            assert forall|j: int| 0 <= j < k + 1 implies stands_clear(st2, #[trigger] o[j]) by {
            }
        },
        Some(p) => {
            assert(l == w.labels[i]);
            let pin = emit::snap_of(p);
            let end = emit::snap_of(l.at);
            lemma_snap(p);
            lemma_snap(l.at);
            if collides(st.pts, st.runs, l.net, pin, end) {
                assert forall|m: int| 0 <= m < w.labels.len() implies same_label(
                    #[trigger] st2.w.labels[m],
                    w.labels[m],
                ) by {
                    if m != i {
                        assert(same_label(st.w.labels[m], w.labels[m]));
                    }
                }
                lemma_points_kept(st2.w.labels, w.labels);
                lemma_in_parts(st2.w, st2.pts);
                assert forall|j: int| 0 <= j < k + 1 implies stands_clear(st2, #[trigger] o[j]) by {
                    if o[j] != i && j < k {
                        assert(stands_clear(st, o[j]));
                        assert(st2.w.labels[o[j]] == st.w.labels[o[j]]);
                    }
                }
            } else {
                lemma_push_in(all_points(st.w), st.pts, (end, l.net));
                lemma_push_in(wire_runs(st.w.wires), st.runs, (pin, end, l.net));
                lemma_wire_kept(st.w, pin, end, l.net, emit::wire_key(pin, end));
                assert(st2.w.labels == st.w.labels);
                assert forall|j: int| 0 <= j < k + 1 implies stands_clear(st2, #[trigger] o[j]) by {
                    if j < k {
                        assert(stands_clear(st, o[j]));
                        let q = st.w.labels[o[j]];
                        assert(same_label(q, w.labels[o[j]]));
                        lemma_still_clear(st, o[j], pin, end, l.net);
                    } else {
                        assert forall|m: int| 0 <= m < st2.pts.len() implies !#[trigger] anchor_hit(
                            st2.pts[m],
                            l.net,
                            pin,
                            end,
                        ) by {
                            if m < st.pts.len() {
                                assert(st2.pts[m] == st.pts[m]);
                                assert(!anchor_hit(st.pts[m], l.net, pin, end));
                            }
                        }
                        assert forall|m: int| 0 <= m < st2.runs.len() implies !#[trigger] run_hit(
                            st2.runs[m],
                            l.net,
                            end,
                        ) by {
                            if m < st.runs.len() {
                                assert(st2.runs[m] == st.runs[m]);
                                assert(!run_hit(st.runs[m], l.net, end));
                            }
                        }
                    }
                }
                // the wire's ends and its run are known already
                assert(st2.pts.contains((pin, l.net))) by {
                    let lp = label_points(st.w.labels);
                    assert(lp[i] == (pin, l.net));
                    assert(st.pts.contains(lp[i]));
                }
                let v = st.w.wires;
                let v2 = st2.w.wires;
                if v2 != v {
                    let x = v2[v.len() as int];
                    assert(v2.drop_last() =~= v);
                    assert(x.a == pin && x.b == end && x.net == Some(l.net));
                    lemma_wire_points_prefix(v2, v, v.len() as int);
                    let wp = wire_points(v, v.len() as int);
                    let wp2 = wire_points(v2, v2.len() as int);
                    assert(wp2 == wp.push((pin, l.net)).push((end, l.net)));
                    assert forall|m: int| 0 <= m < wp2.len() implies st2.pts.contains(
                        #[trigger] wp2[m],
                    ) by {
                        if m < wp.len() {
                            assert(wp2[m] == wp[m]);
                            assert(st.pts.contains(wp[m]));
                        }
                    }
                    let wr = wire_runs(v);
                    let wr2 = wire_runs(v2);
                    assert forall|m: int| 0 <= m < wr2.len() implies st2.runs.contains(
                        #[trigger] wr2[m],
                    ) by {
                        if m < wr.len() {
                            assert(wr2[m] == wr[m]);
                            assert(st.runs.contains(wr[m]));
                        } else {
                            assert(wr2[m] == (pin, end, l.net));
                        }
                    }
                }
                lemma_parts_grow(st.w, st.pts, st2.pts);
                lemma_in_parts(st2.w, st2.pts);
            }
        },
    }
}

proof fn lemma_parts_grow(w: WriterV, a: Seq<Anchor>, b: Seq<Anchor>)
    requires
        each_in(all_points(w), a),
        forall|y: Anchor| a.contains(y) ==> #[trigger] b.contains(y),
    ensures
        each_in(power_points(w.instances, w.instances.len() as int), b),
        each_in(open_points(w.no_connects), b),
        each_in(label_points(w.labels), b),
        each_in(wire_points(w.wires, w.wires.len() as int), b),
{
    lemma_in_parts(w, a);
}

proof fn lemma_wire_points_prefix(a: Seq<emit::WireV>, b: Seq<emit::WireV>, n: int)
    requires
        n <= a.len(),
        n <= b.len(),
        forall|i: int| 0 <= i < n ==> #[trigger] a[i] == b[i],
    ensures
        wire_points(a, n) == wire_points(b, n),
    decreases n,
{
    if n > 0 {
        lemma_wire_points_prefix(a, b, n - 1);
    }
}

proof fn lemma_all_steps(w: WriterV, o: Seq<int>, k: int)
    requires
        0 <= k <= o.len(),
        o.len() == w.labels.len(),
        forall|j: int| 0 <= j < o.len() ==> 0 <= #[trigger] o[j] < o.len(),
    ensures
        in_step(w, settled(settle_start(w), o, k), o, k),
    decreases k,
{
    if k > 0 {
        lemma_all_steps(w, o, k - 1);
        lemma_step(w, settled(settle_start(w), o, k - 1), o, k - 1);
    } else {
        let st = settle_start(w);
        assert forall|i: int| 0 <= i < all_points(w).len() implies st.pts.contains(
            #[trigger] all_points(w)[i],
        ) by {
        }
        assert forall|i: int| 0 <= i < wire_runs(w.wires).len() implies st.runs.contains(
            #[trigger] wire_runs(w.wires)[i],
        ) by {
        }
    }
}

/// The second round: nothing moves.
proof fn lemma_second_round(w: WriterV, last: SettleV, o: Seq<int>, k: int)
    requires
        0 <= k <= o.len(),
        o.len() == w.labels.len(),
        forall|j: int| 0 <= j < o.len() ==> 0 <= #[trigger] o[j] < o.len(),
        in_step(w, last, o, o.len() as int),
    ensures
        ({
            let st = settled(settle_start(last.w), o, k);
            st.w == last.w && each_in(st.pts, last.pts) && each_in(st.runs, last.runs)
        }),
    decreases k,
{
    if k > 0 {
        lemma_second_round(w, last, o, k - 1);
        let st = settled(settle_start(last.w), o, k - 1);
        let i = o[k - 1];
        let l = st.w.labels[i];
        assert(stands_clear(last, i));
        match l.stub {
            None => {},
            Some(p) => {
                let pin = emit::snap_of(p);
                let end = emit::snap_of(l.at);
                lemma_snap(p);
                lemma_snap(l.at);
                assert forall|m: int| 0 <= m < st.pts.len() implies !#[trigger] anchor_hit(
                    st.pts[m],
                    l.net,
                    pin,
                    end,
                ) by {
                    assert(last.pts.contains(st.pts[m]));
                    let q = choose|q: int| 0 <= q < last.pts.len() && last.pts[q] == st.pts[m];
                    assert(!anchor_hit(last.pts[q], l.net, pin, end));
                }
                assert forall|m: int| 0 <= m < st.runs.len() implies !#[trigger] run_hit(
                    st.runs[m],
                    l.net,
                    end,
                ) by {
                    assert(last.runs.contains(st.runs[m]));
                    let q = choose|q: int| 0 <= q < last.runs.len() && last.runs[q] == st.runs[m];
                    assert(!run_hit(last.runs[q], l.net, end));
                }
                let st2 = settle(st, i);
                assert forall|m: int| 0 <= m < st2.pts.len() implies last.pts.contains(
                    #[trigger] st2.pts[m],
                ) by {
                    if m < st.pts.len() {
                        assert(st2.pts[m] == st.pts[m]);
                    }
                }
                assert forall|m: int| 0 <= m < st2.runs.len() implies last.runs.contains(
                    #[trigger] st2.runs[m],
                ) by {
                    if m < st.runs.len() {
                        assert(st2.runs[m] == st.runs[m]);
                    }
                }
            },
        }
    }
}

/// Settling the stubs of a sheet a second time changes nothing.
pub proof fn settling_twice_is_settling_once(w: WriterV)
    ensures
        retracted(retracted(w)) == retracted(w),
{
    let keys = label_keys(w.labels);
    let o = key_order(keys);
    let n = w.labels.len() as int;
    let zeros = Seq::new(keys.len(), |i: int| 0i64);
    let less = |a: int, b: int|
        zeros[a] < zeros[b] || (zeros[a] == zeros[b] && text::before(keys[a], keys[b]));
    order::ranked_lists_all(less, n);
    assert(o == order::ranked(less, n));
    lemma_all_steps(w, o, n);
    let last = settled(settle_start(w), o, n);
    lemma_points_kept(last.w.labels, w.labels);
    lemma_second_round(w, last, o, n);
}

} // verus!
