//! How a net gets onto a sheet: along its route, or by a label at each of its terminals.
use crate::emit;
use crate::emit::{Gallery, PinEnd, PinLabelV, WriterV};
use crate::geom::Pt;
use crate::names;
use crate::reemit::{DraftV, SigV, TapV};
use crate::wiring;
use crate::wiring::NetRoute;
use vstd::prelude::*;

verus! {

/// Whether a wire lies between two points of the grid, or they are one.
pub open spec fn laid(w: WriterV, a: Pt, b: Pt) -> bool {
    emit::snap_of(a) == emit::snap_of(b) || emit::has_wire(
        w.wires,
        emit::wire_key(emit::snap_of(a), emit::snap_of(b)),
    )
}

/// Whether a label of a net that belongs to an end of a pin is there.
pub open spec fn end_labelled(v: Seq<PinLabelV>, net: Seq<char>, at: Pt) -> bool {
    exists|i: int|
        0 <= i < v.len() && (#[trigger] v[i]).net == net && v[i].stub == Some(emit::snap_of(at))
}

/// Whether a label of a net stands at a point.
pub open spec fn label_stands(v: Seq<PinLabelV>, net: Seq<char>, at: Pt) -> bool {
    exists|i: int|
        0 <= i < v.len() && (#[trigger] v[i]).net == net && v[i].at == emit::snap_of(at)
}

/// What was drawn stays drawn.
spec fn grown(a: WriterV, b: WriterV) -> bool {
    &&& b.instances == a.instances
    &&& a.labels.len() <= b.labels.len()
    &&& forall|i: int| 0 <= i < a.labels.len() ==> b.labels[i] == #[trigger] a.labels[i]
    &&& a.wires.len() <= b.wires.len()
    &&& forall|i: int| 0 <= i < a.wires.len() ==> b.wires[i] == #[trigger] a.wires[i]
}

proof fn lemma_grown(a: WriterV, b: WriterV, c: WriterV)
    requires
        grown(a, b),
        grown(b, c),
    ensures
        grown(a, c),
{
    assert forall|i: int| 0 <= i < a.labels.len() implies c.labels[i] == #[trigger] a.labels[i] by {
        assert(b.labels[i] == a.labels[i]);
    }
    assert forall|i: int| 0 <= i < a.wires.len() implies c.wires[i] == #[trigger] a.wires[i] by {
        assert(b.wires[i] == a.wires[i]);
    }
}

proof fn lemma_still_laid(a: WriterV, b: WriterV, p: Pt, q: Pt)
    requires
        grown(a, b),
        laid(a, p, q),
    ensures
        laid(b, p, q),
{
    let key = emit::wire_key(emit::snap_of(p), emit::snap_of(q));
    if emit::snap_of(p) != emit::snap_of(q) {
        let i = choose|i: int| 0 <= i < a.wires.len() && (#[trigger] a.wires[i]).key == key;
        assert(b.wires[i] == a.wires[i]);
    }
}

proof fn lemma_still_labelled(a: WriterV, b: WriterV, net: Seq<char>, at: Pt)
    requires
        grown(a, b),
    ensures
        end_labelled(a.labels, net, at) ==> end_labelled(b.labels, net, at),
        label_stands(a.labels, net, at) ==> label_stands(b.labels, net, at),
{
    if end_labelled(a.labels, net, at) {
        let i = choose|i: int|
            0 <= i < a.labels.len() && (#[trigger] a.labels[i]).net == net && a.labels[i].stub
                == Some(emit::snap_of(at));
        assert(b.labels[i] == a.labels[i]);
    }
    if label_stands(a.labels, net, at) {
        let i = choose|i: int|
            0 <= i < a.labels.len() && (#[trigger] a.labels[i]).net == net && a.labels[i].at
                == emit::snap_of(at);
        assert(b.labels[i] == a.labels[i]);
    }
}

proof fn lemma_wire(w: WriterV, a: Pt, b: Pt, net: Option<Seq<char>>)
    ensures
        grown(w, w.with_wire(a, b, net)),
        laid(w.with_wire(a, b, net), a, b),
{
    let r = w.with_wire(a, b, net);
    let (p, q) = (emit::snap_of(a), emit::snap_of(b));
    let key = emit::wire_key(p, q);
    if !(p == q || emit::has_wire(w.wires, key)) {
        assert(r.wires[w.wires.len() as int].key == key);
    }
}

// ---------------------------------------------------------------- along a route
proof fn lemma_path(w: WriterV, net: Seq<char>, p: Seq<Pt>, n: int)
    requires
        0 <= n < p.len() || n == 0,
    ensures
        grown(w, wiring::path_drawn(w, net, p, n)),
        forall|j: int|
            0 <= j < n ==> laid(wiring::path_drawn(w, net, p, n), #[trigger] p[j], p[j + 1]),
    decreases n,
{
    if n > 0 {
        lemma_path(w, net, p, n - 1);
        let a = wiring::path_drawn(w, net, p, n - 1);
        let b = wiring::path_drawn(w, net, p, n);
        lemma_wire(a, p[n - 1], p[n], Some(net));
        lemma_grown(w, a, b);
        assert forall|j: int| 0 <= j < n implies laid(b, #[trigger] p[j], p[j + 1]) by {
            if j < n - 1 {
                lemma_still_laid(a, b, p[j], p[j + 1]);
            }
        }
    }
}

/// Whether every stretch of a path is laid.
pub open spec fn path_laid(w: WriterV, p: Seq<Pt>) -> bool {
    forall|j: int| 0 <= j < p.len() - 1 ==> laid(w, #[trigger] p[j], p[j + 1])
}

proof fn lemma_paths(w: WriterV, net: Seq<char>, v: Seq<Vec<Pt>>, n: int)
    requires
        0 <= n <= v.len(),
    ensures
        grown(w, wiring::paths_drawn(w, net, v, n)),
        forall|i: int| 0 <= i < n ==> path_laid(wiring::paths_drawn(w, net, v, n), #[trigger] v[i]@),
    decreases n,
{
    if n > 0 {
        lemma_paths(w, net, v, n - 1);
        let a = wiring::paths_drawn(w, net, v, n - 1);
        let b = wiring::paths_drawn(w, net, v, n);
        lemma_path(a, net, v[n - 1]@, wiring::stretches(v[n - 1]@));
        lemma_grown(w, a, b);
        assert forall|i: int| 0 <= i < n implies path_laid(b, #[trigger] v[i]@) by {
            if i < n - 1 {
                let p = v[i]@;
                assert(path_laid(a, v[i]@));
                assert forall|j: int| 0 <= j < p.len() - 1 implies laid(
                    b,
                    #[trigger] p[j],
                    p[j + 1],
                ) by {
                    lemma_still_laid(a, b, p[j], p[j + 1]);
                }
            }
        }
    }
}

proof fn lemma_dots(w: WriterV, v: Seq<Pt>, n: int)
    ensures
        grown(w, wiring::dots_drawn(w, v, n)),
    decreases n,
{
    if n > 0 {
        lemma_dots(w, v, n - 1);
        lemma_grown(w, wiring::dots_drawn(w, v, n - 1), wiring::dots_drawn(w, v, n));
    }
}

proof fn lemma_sig_tees(w: WriterV, net: Seq<char>, v: Seq<SigV>, n: int)
    ensures
        grown(w, wiring::sig_tees(w, net, v, n)),
    decreases n,
{
    if n > 0 {
        lemma_sig_tees(w, net, v, n - 1);
        lemma_grown(w, wiring::sig_tees(w, net, v, n - 1), wiring::sig_tees(w, net, v, n));
    }
}

proof fn lemma_tap_tees(w: WriterV, net: Seq<char>, v: Seq<TapV>, n: int)
    ensures
        grown(w, wiring::tap_tees(w, net, v, n)),
    decreases n,
{
    if n > 0 {
        lemma_tap_tees(w, net, v, n - 1);
        lemma_grown(w, wiring::tap_tees(w, net, v, n - 1), wiring::tap_tees(w, net, v, n));
    }
}

// ---------------------------------------------------------------- by labels
proof fn lemma_stubs(
    ends: Seq<PinEnd>,
    refdes: Seq<char>,
    pin: Seq<char>,
    net: Seq<char>,
    n: int,
)
    requires
        0 <= n <= ends.len(),
    ensures
        emit::stub_labels(ends, refdes, pin, net, n).len() == n,
        forall|i: int|
            0 <= i < n ==> (#[trigger] emit::stub_labels(ends, refdes, pin, net, n)[i]).net == net
                && emit::stub_labels(ends, refdes, pin, net, n)[i].stub == Some(
                emit::snap_of(ends[i].at),
            ),
    decreases n,
{
    if n > 0 {
        lemma_stubs(ends, refdes, pin, net, n - 1);
    }
}

/// Whether each end of a pin has a label of a net on a stub; where the ends are is read off the
/// symbols of a sheet.
pub open spec fn pin_labelled(
    w: WriterV,
    g: Gallery,
    net: Seq<char>,
    refdes: Seq<char>,
    pin: Seq<char>,
    v: Seq<PinLabelV>,
) -> bool {
    match emit::pin_ends(w, g, refdes, pin) {
        Err(e) => false,
        Ok(ends) => forall|i: int|
            0 <= i < ends.len() ==> end_labelled(v, net, (#[trigger] ends[i]).at),
    }
}

/// Whether each end of the pin of a signal has its label, for a sheet with the same symbols.
pub open spec fn sig_labelled(a: WriterV, g: Gallery, s: SigV, v: Seq<PinLabelV>) -> bool {
    exists|w: WriterV|
        w.instances == a.instances && #[trigger] pin_labelled(w, g, s.net, s.refdes, s.pin, v)
}

proof fn lemma_sig_still(a: WriterV, g: Gallery, s: SigV, x: WriterV, y: WriterV)
    requires
        grown(x, y),
        sig_labelled(a, g, s, x.labels),
    ensures
        sig_labelled(a, g, s, y.labels),
{
    let w = choose|w: WriterV|
        w.instances == a.instances && #[trigger] pin_labelled(
            w,
            g,
            s.net,
            s.refdes,
            s.pin,
            x.labels,
        );
    let ends = emit::pin_ends(w, g, s.refdes, s.pin)->Ok_0;
    assert forall|i: int| 0 <= i < ends.len() implies end_labelled(
        y.labels,
        s.net,
        (#[trigger] ends[i]).at,
    ) by {
        assert(end_labelled(x.labels, s.net, ends[i].at));
        lemma_still_labelled(x, y, s.net, ends[i].at);
    }
    assert(pin_labelled(w, g, s.net, s.refdes, s.pin, y.labels));
}

#[verifier::spinoff_prover]
#[verifier::rlimit(40)]
proof fn lemma_pins(w: WriterV, g: Gallery, net: Seq<char>, v: Seq<SigV>, n: int)
    requires
        0 <= n <= v.len(),
        wiring::pins_labelled(w, g, net, v, n) is Ok,
    ensures
        ({
            let r = wiring::pins_labelled(w, g, net, v, n)->Ok_0;
            &&& grown(w, r)
            &&& forall|k: int|
                0 <= k < n && (#[trigger] v[k]).net == net ==> sig_labelled(w, g, v[k], r.labels)
        }),
    decreases n,
{
    if n > 0 {
        lemma_pins(w, g, net, v, n - 1);
        let x = wiring::pins_labelled(w, g, net, v, n - 1)->Ok_0;
        let r = wiring::pins_labelled(w, g, net, v, n)->Ok_0;
        let s = v[n - 1];
        if s.net == net && !wiring::pin_seen(v, s, n - 1) {
            let ends = emit::pin_ends(x, g, s.refdes, s.pin)->Ok_0;
            let m = ends.len() as int;
            let more = emit::stub_labels(ends, s.refdes, s.pin, net, m);
            lemma_stubs(ends, s.refdes, s.pin, net, m);
            assert(r.labels == x.labels + more);
            assert(grown(x, r));
            assert forall|i: int| 0 <= i < ends.len() implies end_labelled(
                r.labels,
                net,
                (#[trigger] ends[i]).at,
            ) by {
                assert(r.labels[x.labels.len() + i] == more[i]);
            }
            assert(pin_labelled(x, g, net, s.refdes, s.pin, r.labels));
            assert(sig_labelled(w, g, s, r.labels));
        } else {
            assert(r == x);
        }
        lemma_grown(w, x, r);
        assert forall|k: int| 0 <= k < n && (#[trigger] v[k]).net == net implies sig_labelled(
            w,
            g,
            v[k],
            r.labels,
        ) by {
            if k < n - 1 {
                lemma_sig_still(w, g, v[k], x, r);
            } else if wiring::pin_seen(v, s, n - 1) {
                let q = choose|q: int|
                    0 <= q < n - 1 && (#[trigger] v[q]).net == s.net && v[q].refdes == s.refdes
                        && v[q].pin == s.pin;
                assert(sig_labelled(w, g, v[q], r.labels));
            }
        }
    }
}

proof fn lemma_taps(w: WriterV, net: Seq<char>, v: Seq<TapV>, n: int)
    requires
        0 <= n <= v.len(),
    ensures
        ({
            let r = wiring::taps_labelled(w, net, v, n);
            &&& grown(w, r)
            &&& forall|k: int|
                0 <= k < n && (#[trigger] v[k]).net == net ==> laid(r, v[k].tap, v[k].label)
                    && label_stands(r.labels, net, v[k].label)
        }),
    decreases n,
{
    if n > 0 {
        lemma_taps(w, net, v, n - 1);
        let x = wiring::taps_labelled(w, net, v, n - 1);
        let r = wiring::taps_labelled(w, net, v, n);
        let t = v[n - 1];
        if t.net == net {
            let y = x.with_wire(t.tap, t.label, Some(net));
            lemma_wire(x, t.tap, t.label, Some(net));
            assert(grown(y, r));
            lemma_grown(x, y, r);
            lemma_still_laid(y, r, t.tap, t.label);
            assert(r.labels[y.labels.len() as int] == wiring::cluster_label(net, t.label, t.dir));
            assert(label_stands(r.labels, net, t.label));
        }
        lemma_grown(w, x, r);
        assert forall|k: int| 0 <= k < n && (#[trigger] v[k]).net == net implies laid(
            r,
            v[k].tap,
            v[k].label,
        ) && label_stands(r.labels, net, v[k].label) by {
            if k < n - 1 {
                lemma_still_laid(x, r, v[k].tap, v[k].label);
                lemma_still_labelled(x, r, net, v[k].label);
            }
        }
    }
}

proof fn lemma_route(v: Seq<NetRoute>, net: Seq<char>, i: int)
    requires
        0 <= i <= v.len(),
    ensures
        i <= wiring::route_at(v, net, i) <= v.len(),
        wiring::route_at(v, net, i) < v.len() ==> v[wiring::route_at(v, net, i)].net@ == net,
        forall|j: int| i <= j < wiring::route_at(v, net, i) ==> (#[trigger] v[j]).net@ != net,
    decreases v.len() - i,
{
    if i < v.len() && v[i].net@ != net {
        lemma_route(v, net, i + 1);
    }
}

/// A net that may be wired and has a route gets every stretch of the paths of one of its routes. Any
/// other net gets a label on each end of each of its pins, and a stub with a label at each of its
/// taps; one that might have been wired is told of.
pub proof fn a_net_is_wired_or_labelled(
    d: DraftV,
    g: Gallery,
    routes: Seq<NetRoute>,
    net: Seq<char>,
)
    requires
        wiring::net_drawn(d, g, routes, net) is Ok,
    ensures
        ({
            let r = wiring::net_drawn(d, g, routes, net)->Ok_0;
            let routed = exists|i: int| 0 <= i < routes.len() && (#[trigger] routes[i]).net@ == net;
            &&& wiring::may_wire(d, net) && routed ==> exists|i: int|
                0 <= i < routes.len() && (#[trigger] routes[i]).net@ == net && forall|j: int|
                    0 <= j < routes[i].paths@.len() ==> path_laid(
                        r.w,
                        #[trigger] routes[i].paths@[j]@,
                    )
            &&& !(wiring::may_wire(d, net) && routed) ==> forall|k: int|
                0 <= k < d.signals.len() && (#[trigger] d.signals[k]).net == net ==> sig_labelled(
                    d.w,
                    g,
                    d.signals[k],
                    r.w.labels,
                )
            &&& !(wiring::may_wire(d, net) && routed) ==> forall|k: int|
                0 <= k < d.taps.len() && (#[trigger] d.taps[k]).net == net ==> laid(
                    r.w,
                    d.taps[k].tap,
                    d.taps[k].label,
                ) && label_stands(r.w.labels, net, d.taps[k].label)
            &&& wiring::may_wire(d, net) && !routed ==> r.notes.len() == d.notes.len() + 1
        }),
{
    let r = wiring::net_drawn(d, g, routes, net)->Ok_0;
    let i = wiring::route_at(routes, net, 0);
    lemma_route(routes, net, 0);
    if i < routes.len() {
        assert(routes[i].net@ == net);
    }
    if wiring::may_wire(d, net) && i < routes.len() {
        let x = routes[i];
        let a = wiring::paths_drawn(d.w, net, x.paths@, x.paths@.len() as int);
        lemma_paths(d.w, net, x.paths@, x.paths@.len() as int);
        let b = wiring::dots_drawn(a, x.junctions@, x.junctions@.len() as int);
        lemma_dots(a, x.junctions@, x.junctions@.len() as int);
        let c = wiring::sig_tees(b, net, d.signals, d.signals.len() as int);
        lemma_sig_tees(b, net, d.signals, d.signals.len() as int);
        lemma_tap_tees(c, net, d.taps, d.taps.len() as int);
        lemma_grown(a, b, c);
        lemma_grown(a, c, r.w);
        assert forall|j: int| 0 <= j < x.paths@.len() implies path_laid(
            r.w,
            #[trigger] x.paths@[j]@,
        ) by {
            let p = x.paths@[j]@;
            assert(path_laid(a, x.paths@[j]@));
            assert forall|q: int| 0 <= q < p.len() - 1 implies laid(r.w, #[trigger] p[q], p[q + 1]) by {
                lemma_still_laid(a, r.w, p[q], p[q + 1]);
            }
        }
    } else {
        lemma_pins(d.w, g, net, d.signals, d.signals.len() as int);
        let w = wiring::pins_labelled(d.w, g, net, d.signals, d.signals.len() as int)->Ok_0;
        lemma_taps(w, net, d.taps, d.taps.len() as int);
        assert(r.w == wiring::taps_labelled(w, net, d.taps, d.taps.len() as int));
        assert forall|k: int|
            0 <= k < d.signals.len() && (#[trigger] d.signals[k]).net == net implies sig_labelled(
            d.w,
            g,
            d.signals[k],
            r.w.labels,
        ) by {
            lemma_sig_still(d.w, g, d.signals[k], w, r.w);
        }
    }
}

// ---------------------------------------------------------------- which nets
proof fn lemma_signal_nets(s: Seq<Seq<char>>, v: Seq<SigV>, n: int, t: Seq<char>)
    requires
        0 <= n <= v.len(),
    ensures
        wiring::signal_nets(s, v, n).contains(t) <==> s.contains(t) || exists|i: int|
            0 <= i < n && (#[trigger] v[i]).net == t,
    decreases n,
{
    if n > 0 {
        lemma_signal_nets(s, v, n - 1, t);
        names::lemma_add_contains(wiring::signal_nets(s, v, n - 1), v[n - 1].net, t);
        if exists|i: int| 0 <= i < n - 1 && (#[trigger] v[i]).net == t {
            let i = choose|i: int| 0 <= i < n - 1 && (#[trigger] v[i]).net == t;
            assert(0 <= i < n && v[i].net == t);
        }
        if v[n - 1].net == t {
            assert(0 <= n - 1 < n && v[n - 1].net == t);
        }
    }
}

proof fn lemma_tap_nets(s: Seq<Seq<char>>, v: Seq<TapV>, n: int, t: Seq<char>)
    requires
        0 <= n <= v.len(),
    ensures
        wiring::tap_nets(s, v, n).contains(t) <==> s.contains(t) || exists|i: int|
            0 <= i < n && (#[trigger] v[i]).net == t,
    decreases n,
{
    if n > 0 {
        lemma_tap_nets(s, v, n - 1, t);
        names::lemma_add_contains(wiring::tap_nets(s, v, n - 1), v[n - 1].net, t);
        if exists|i: int| 0 <= i < n - 1 && (#[trigger] v[i]).net == t {
            let i = choose|i: int| 0 <= i < n - 1 && (#[trigger] v[i]).net == t;
            assert(0 <= i < n && v[i].net == t);
        }
        if v[n - 1].net == t {
            assert(0 <= n - 1 < n && v[n - 1].net == t);
        }
    }
}

/// The nets to connect are those of the signals and the taps, and no others.
pub proof fn every_net_with_a_terminal_is_connected(d: DraftV, t: Seq<char>)
    ensures
        wiring::open_nets(d).contains(t) <==> (exists|i: int|
            0 <= i < d.signals.len() && (#[trigger] d.signals[i]).net == t) || (exists|i: int|
            0 <= i < d.taps.len() && (#[trigger] d.taps[i]).net == t),
{
    let s = wiring::signal_nets(Seq::empty(), d.signals, d.signals.len() as int);
    lemma_signal_nets(Seq::empty(), d.signals, d.signals.len() as int, t);
    lemma_tap_nets(s, d.taps, d.taps.len() as int, t);
}

proof fn lemma_sigs(v: Seq<SigV>, net: Seq<char>, n: int)
    requires
        0 <= n <= v.len(),
    ensures
        wiring::sig_count(v, net, n) >= 0,
        forall|i: int|
            0 <= i < n && (#[trigger] v[i]).net == net ==> wiring::sig_count(v, net, n) >= 1,
        forall|i: int, j: int|
            0 <= i < j < n && (#[trigger] v[i]).net == net && (#[trigger] v[j]).net == net
                ==> wiring::sig_count(v, net, n) >= 2,
        wiring::sig_count(v, net, n) >= 1 ==> exists|i: int|
            0 <= i < n && (#[trigger] v[i]).net == net,
    decreases n,
{
    if n > 0 {
        lemma_sigs(v, net, n - 1);
        if wiring::sig_count(v, net, n - 1) >= 1 {
            let i = choose|i: int| 0 <= i < n - 1 && (#[trigger] v[i]).net == net;
            assert(0 <= i < n && v[i].net == net);
        } else if v[n - 1].net == net {
            assert(0 <= n - 1 < n && v[n - 1].net == net);
        }
    }
}

proof fn lemma_tap_count(v: Seq<TapV>, net: Seq<char>, n: int)
    requires
        0 <= n <= v.len(),
    ensures
        wiring::tap_count(v, net, n) >= 0,
        forall|i: int|
            0 <= i < n && (#[trigger] v[i]).net == net ==> wiring::tap_count(v, net, n) >= 1,
        forall|i: int, j: int|
            0 <= i < j < n && (#[trigger] v[i]).net == net && (#[trigger] v[j]).net == net
                ==> wiring::tap_count(v, net, n) >= 2,
    decreases n,
{
    if n > 0 {
        lemma_tap_count(v, net, n - 1);
    }
}

proof fn lemma_blocks(v: Seq<(Seq<char>, Seq<char>)>, net: Seq<char>, n: int)
    requires
        0 <= n <= v.len(),
    ensures
        wiring::block_count(v, net, n) >= 0,
        forall|i: int|
            0 <= i < n && (#[trigger] v[i]).0 == net ==> wiring::block_count(v, net, n) >= 1,
        forall|i: int, j: int|
            0 <= i < j < n && (#[trigger] v[i]).0 == net && (#[trigger] v[j]).0 == net
                ==> wiring::block_count(v, net, n) >= 2,
        (forall|i: int, j: int|
            0 <= i < j < n ==> !((#[trigger] v[i]).0 == net && (#[trigger] v[j]).0 == net))
            ==> wiring::block_count(v, net, n) <= 1,
        wiring::block_count(v, net, n) >= 1 ==> exists|i: int|
            0 <= i < n && (#[trigger] v[i]).0 == net,
    decreases n,
{
    if n > 0 {
        lemma_blocks(v, net, n - 1);
        if wiring::block_count(v, net, n - 1) >= 1 {
            let i = choose|i: int| 0 <= i < n - 1 && (#[trigger] v[i]).0 == net;
            assert(0 <= i < n && v[i].0 == net);
        } else if v[n - 1].0 == net {
            assert(0 <= n - 1 < n && v[n - 1].0 == net);
        }
    }
}

/// Whether a net has two terminals: two signals, two taps, or one of each.
pub open spec fn two_terminals(d: DraftV, net: Seq<char>) -> bool {
    ||| exists|i: int, j: int|
        0 <= i < j < d.signals.len() && (#[trigger] d.signals[i]).net == net && (
        #[trigger] d.signals[j]).net == net
    ||| exists|i: int, j: int|
        0 <= i < j < d.taps.len() && (#[trigger] d.taps[i]).net == net && (
        #[trigger] d.taps[j]).net == net
    ||| exists|i: int, j: int|
        0 <= i < d.signals.len() && 0 <= j < d.taps.len() && (#[trigger] d.signals[i]).net == net
            && (#[trigger] d.taps[j]).net == net
}

/// A net with two terminals that touches one block may be wired; one that touches no block, or two,
/// may not.
pub proof fn nets_of_one_block_may_be_wired(d: DraftV, net: Seq<char>)
    ensures
        two_terminals(d, net) && (exists|i: int|
            0 <= i < d.touched.len() && (#[trigger] d.touched[i]).0 == net) && (forall|i: int, j: int|
            0 <= i < j < d.touched.len() ==> !((#[trigger] d.touched[i]).0 == net && (
            #[trigger] d.touched[j]).0 == net)) ==> wiring::may_wire(d, net),
        (forall|i: int| 0 <= i < d.touched.len() ==> (#[trigger] d.touched[i]).0 != net)
            ==> !wiring::may_wire(d, net),
        (exists|i: int, j: int|
            0 <= i < j < d.touched.len() && (#[trigger] d.touched[i]).0 == net && (
            #[trigger] d.touched[j]).0 == net) ==> !wiring::may_wire(d, net),
{
    lemma_sigs(d.signals, net, d.signals.len() as int);
    lemma_tap_count(d.taps, net, d.taps.len() as int);
    lemma_blocks(d.touched, net, d.touched.len() as int);
}

} // verus!
