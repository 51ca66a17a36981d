//! The last passes over a sheet: nets as wires or as labels, frames around blocks, findings.
use crate::decorate;
use crate::decorate::{draw_flags, emit_cluster_decoration, needs_flag};
use crate::emit;
use crate::emit::{point_on_segment, snap_point, Dir, EmitError, EmitErrorV, Gallery};
use crate::emit::{PinLabel, PinLabelV, SchematicWriter, Wire, WireV, WriterV};
use crate::flex::cut_wide;
use crate::geom;
use crate::geom::{max_i, min_i, BBox, Pt};
use crate::kernel::{Block, BlockGraph, Design, Provider};
use crate::names;
use crate::names::add_distinct;
use crate::order_map;
use crate::orient;
use crate::orient::cut_off;
use crate::reconcile;
use crate::reconcile::{find_named, resolve_cluster_origins, GrammarInputs, Layout, PriorMap, Relayout};
use crate::reemit;
use crate::reemit::{emit_blocks, Draft, DraftV, Drawn, Rails, RailsV, Scene, Sig, SigV, TapV};
use crate::render;
use crate::retract;
use crate::text;
use crate::text::{is_before, same, Line};
use crate::tree;
use vstd::prelude::*;

verus! {

/// How a net was wired: the paths between its terminals, and where three of them meet.
#[derive(Debug, Clone)]
pub struct NetRoute {
    pub net: String,
    pub paths: Vec<Vec<Pt>>,
    pub junctions: Vec<Pt>,
}

/// The first route of a net from `i` on, or the number of routes.
pub open spec fn route_at(v: Seq<NetRoute>, net: Seq<char>, i: int) -> int
    decreases v.len() - i,
{
    if i < 0 || i >= v.len() || v[i].net@ == net {
        i
    } else {
        route_at(v, net, i + 1)
    }
}

// ---------------------------------------------------------------- which nets are wired
pub open spec fn signal_nets(s: Seq<Seq<char>>, v: Seq<SigV>, n: int) -> Seq<Seq<char>>
    decreases n,
{
    if n <= 0 {
        s
    } else {
        names::set_add(signal_nets(s, v, n - 1), v[n - 1].net)
    }
}

pub open spec fn tap_nets(s: Seq<Seq<char>>, v: Seq<TapV>, n: int) -> Seq<Seq<char>>
    decreases n,
{
    if n <= 0 {
        s
    } else {
        names::set_add(tap_nets(s, v, n - 1), v[n - 1].net)
    }
}

/// The nets that are still to be connected, in ascending order.
pub open spec fn open_nets(d: DraftV) -> Seq<Seq<char>> {
    tap_nets(
        signal_nets(Seq::empty(), d.signals, d.signals.len() as int),
        d.taps,
        d.taps.len() as int,
    )
}

pub fn pending_nets(d: &Draft) -> (r: Vec<String>)
    ensures
        text::views(r@) == open_nets(d@),
{
    let mut r: Vec<String> = Vec::new();
    let ghost sv = d@.signals;
    let ghost tv = d@.taps;
    let mut i: usize = 0;
    assert(text::views(r@) =~= Seq::empty());
    while i < d.signals.len()
        invariant
            i <= d.signals@.len(),
            sv == reemit::sigs_v(d.signals@),
            text::views(r@) == signal_nets(Seq::empty(), sv, i as int),
        decreases d.signals@.len() - i,
    {
        assert(sv[i as int] == d.signals@[i as int]@);
        add_distinct(&mut r, d.signals[i].net.clone());
        i += 1;
    }
    let ghost s = text::views(r@);
    i = 0;
    while i < d.taps.len()
        invariant
            i <= d.taps@.len(),
            tv == reemit::taps_v(d.taps@),
            text::views(r@) == tap_nets(s, tv, i as int),
        decreases d.taps@.len() - i,
    {
        assert(tv[i as int] == d.taps@[i as int]@);
        add_distinct(&mut r, d.taps[i].net.clone());
        i += 1;
    }
    r
}

pub open spec fn sig_count(v: Seq<SigV>, net: Seq<char>, n: int) -> int
    decreases n,
{
    if n <= 0 {
        0
    } else {
        sig_count(v, net, n - 1) + if v[n - 1].net == net {
            1int
        } else {
            0
        }
    }
}

pub open spec fn tap_count(v: Seq<TapV>, net: Seq<char>, n: int) -> int
    decreases n,
{
    if n <= 0 {
        0
    } else {
        tap_count(v, net, n - 1) + if v[n - 1].net == net {
            1int
        } else {
            0
        }
    }
}

pub open spec fn block_count(v: Seq<(Seq<char>, Seq<char>)>, net: Seq<char>, n: int) -> int
    decreases n,
{
    if n <= 0 {
        0
    } else {
        block_count(v, net, n - 1) + if v[n - 1].0 == net {
            1int
        } else {
            0
        }
    }
}

/// Whether a net may be wired: it has two terminals or more, all in one block.
pub open spec fn may_wire(d: DraftV, net: Seq<char>) -> bool {
    block_count(d.touched, net, d.touched.len() as int) == 1 && sig_count(
        d.signals,
        net,
        d.signals.len() as int,
    ) + tap_count(d.taps, net, d.taps.len() as int) >= 2
}

/// Whether a net may be wired: it has two terminals or more, all in one block.
pub fn routable(d: &Draft, net: &str) -> (r: bool)
    ensures
        r == may_wire(d@, net@),
{
    let ghost (sv, tv, pv) = (d@.signals, d@.taps, d@.touched);
    let mut blocks: usize = 0;
    let mut i: usize = 0;
    while i < d.touched.len()
        invariant
            blocks <= i <= d.touched@.len(),
            pv == emit::pairs_v(d.touched@),
            blocks == block_count(pv, net@, i as int),
        decreases d.touched@.len() - i,
    {
        assert(pv[i as int].0 == d.touched@[i as int].0@);
        if same(d.touched[i].0.as_str(), net) {
            blocks += 1;
        }
        i += 1;
    }
    assert(pv.len() == d.touched@.len());
    let mut terminals: u128 = 0;
    i = 0;
    while i < d.signals.len()
        invariant
            terminals <= i <= d.signals@.len(),
            sv == reemit::sigs_v(d.signals@),
            terminals == sig_count(sv, net@, i as int),
        decreases d.signals@.len() - i,
    {
        assert(sv[i as int] == d.signals@[i as int]@);
        if same(d.signals[i].net.as_str(), net) {
            terminals += 1;
        }
        i += 1;
    }
    let ghost before = terminals;
    i = 0;
    while i < d.taps.len()
        invariant
            i <= d.taps@.len(),
            before <= usize::MAX,
            terminals <= before + i,
            tv == reemit::taps_v(d.taps@),
            terminals == before + tap_count(tv, net@, i as int),
        decreases d.taps@.len() - i,
    {
        assert(tv[i as int] == d.taps@[i as int]@);
        if same(d.taps[i].net.as_str(), net) {
            terminals += 1;
        }
        i += 1;
    }
    assert(sv.len() == d.signals@.len() && tv.len() == d.taps@.len());
    blocks == 1 && terminals >= 2
}

// ---------------------------------------------------------------- wires
/// The sheet with the first `n` stretches of a path.
pub open spec fn path_drawn(w: WriterV, net: Seq<char>, p: Seq<Pt>, n: int) -> WriterV
    decreases n,
{
    if n <= 0 {
        w
    } else {
        path_drawn(w, net, p, n - 1).with_wire(p[n - 1], p[n], Some(net))
    }
}

pub open spec fn stretches(p: Seq<Pt>) -> int {
    if p.len() == 0 {
        0
    } else {
        p.len() - 1
    }
}

pub open spec fn paths_drawn(w: WriterV, net: Seq<char>, v: Seq<Vec<Pt>>, n: int) -> WriterV
    decreases n,
{
    if n <= 0 {
        w
    } else {
        path_drawn(paths_drawn(w, net, v, n - 1), net, v[n - 1]@, stretches(v[n - 1]@))
    }
}

pub open spec fn dots_drawn(w: WriterV, v: Seq<Pt>, n: int) -> WriterV
    decreases n,
{
    if n <= 0 {
        w
    } else {
        dots_drawn(w, v, n - 1).with_junction(v[n - 1])
    }
}

/// Whether a point lies inside a wire of a net, off its ends.
pub open spec fn inside(w: WireV, net: Seq<char>, p: Pt) -> bool {
    w.net == Some(net) && p != w.a && p != w.b && emit::on_line(p, w.a, w.b)
}

pub open spec fn meets_wire(v: Seq<WireV>, net: Seq<char>, p: Pt) -> bool {
    exists|i: int| 0 <= i < v.len() && inside(#[trigger] v[i], net, p)
}

pub open spec fn tee(w: WriterV, net: Seq<char>, p: Pt) -> WriterV {
    if meets_wire(w.wires, net, p) {
        w.with_junction(p)
    } else {
        w
    }
}

pub open spec fn sig_tees(w: WriterV, net: Seq<char>, v: Seq<SigV>, n: int) -> WriterV
    decreases n,
{
    if n <= 0 {
        w
    } else {
        let x = sig_tees(w, net, v, n - 1);
        if v[n - 1].net == net {
            tee(x, net, v[n - 1].at)
        } else {
            x
        }
    }
}

pub open spec fn tap_tees(w: WriterV, net: Seq<char>, v: Seq<TapV>, n: int) -> WriterV
    decreases n,
{
    if n <= 0 {
        w
    } else {
        let x = tap_tees(w, net, v, n - 1);
        if v[n - 1].net == net {
            tee(x, net, v[n - 1].tap)
        } else {
            x
        }
    }
}

/// The sheet with a net as wires: its paths, the dots where they meet, and a dot where a terminal
/// lies inside a wire of the net.
pub open spec fn net_wired(d: DraftV, net: Seq<char>, r: NetRoute) -> WriterV {
    let a = paths_drawn(d.w, net, r.paths@, r.paths@.len() as int);
    let b = dots_drawn(a, r.junctions@, r.junctions@.len() as int);
    tap_tees(
        sig_tees(b, net, d.signals, d.signals.len() as int),
        net,
        d.taps,
        d.taps.len() as int,
    )
}

fn find_inside(v: &Vec<Wire>, net: &str, p: Pt) -> (r: bool)
    ensures
        r == meets_wire(emit::wires_v(v@), net@, p),
{
    let ghost m = emit::wires_v(v@);
    let mut i: usize = 0;
    while i < v.len()
        invariant
            i <= v@.len(),
            m == emit::wires_v(v@),
            forall|k: int| 0 <= k < i ==> !inside(#[trigger] m[k], net@, p),
        decreases v@.len() - i,
    {
        assert(m[i as int] == v@[i as int]@);
        let on_net = match &v[i].net {
            Some(n) => same(n.as_str(), net),
            None => false,
        };
        let (a, b) = (v[i].a, v[i].b);
        if on_net && !(p.x == a.x && p.y == a.y) && !(p.x == b.x && p.y == b.y)
            && point_on_segment(p, a, b) {
            assert(inside(m[i as int], net@, p));
            return true;
        }
        i += 1;
    }
    false
}

fn draw_tee(w: &mut SchematicWriter, net: &str, p: Pt)
    ensures
        final(w)@ == tee(old(w)@, net@, p),
{
    if find_inside(&w.wires, net, p) {
        w.add_junction(p);
    }
}

#[verifier::spinoff_prover]
#[verifier::rlimit(40)]
fn wire_net(d: &mut Draft, net: &str, r: &NetRoute)
    ensures
        final(d)@ == old(d)@.on(net_wired(old(d)@, net@, *r)),
{
    let ghost b = d@;
    let mut i: usize = 0;
    assert(d@ =~= b.on(paths_drawn(b.w, net@, r.paths@, 0)));
    while i < r.paths.len()
        invariant
            i <= r.paths@.len(),
            d@ == b.on(paths_drawn(b.w, net@, r.paths@, i as int)),
        decreases r.paths@.len() - i,
    {
        let p = &r.paths[i];
        let ghost x = d@;
        let mut k: usize = 0;
        assert(d@ =~= b.on(path_drawn(x.w, net@, p@, 0)));
        let n = p.len();
        while k < n && n - k > 1
            invariant
                k <= stretches(p@),
                n == p@.len(),
                d@ == b.on(path_drawn(x.w, net@, p@, k as int)),
            decreases p@.len() - k,
        {
            let ghost y = d@;
            d.w.add_wire_on_net(p[k], p[k + 1], net);
            assert(d@ =~= b.on(path_drawn(x.w, net@, p@, k + 1)));
            k += 1;
        }
        i += 1;
    }
    let ghost a = d@.w;
    i = 0;
    assert(d@ =~= b.on(dots_drawn(a, r.junctions@, 0)));
    while i < r.junctions.len()
        invariant
            i <= r.junctions@.len(),
            d@ == b.on(dots_drawn(a, r.junctions@, i as int)),
        decreases r.junctions@.len() - i,
    {
        d.w.add_junction(r.junctions[i]);
        assert(d@ =~= b.on(dots_drawn(a, r.junctions@, i + 1)));
        i += 1;
    }
    let ghost c = d@.w;
    i = 0;
    assert(d@ =~= b.on(sig_tees(c, net@, b.signals, 0)));
    while i < d.signals.len()
        invariant
            i <= d.signals@.len(),
            b.signals == reemit::sigs_v(d.signals@),
            d@ == b.on(sig_tees(c, net@, b.signals, i as int)),
        decreases d.signals@.len() - i,
    {
        assert(b.signals[i as int] == d.signals@[i as int]@);
        if same(d.signals[i].net.as_str(), net) {
            let p = d.signals[i].at;
            draw_tee(&mut d.w, net, p);
        }
        assert(d@ =~= b.on(sig_tees(c, net@, b.signals, i + 1)));
        i += 1;
    }
    let ghost e = d@.w;
    i = 0;
    assert(b.signals.len() == d.signals@.len());
    assert(d@ =~= b.on(tap_tees(e, net@, b.taps, 0)));
    while i < d.taps.len()
        invariant
            i <= d.taps@.len(),
            b.taps == reemit::taps_v(d.taps@),
            d@ == b.on(tap_tees(e, net@, b.taps, i as int)),
        decreases d.taps@.len() - i,
    {
        assert(b.taps[i as int] == d.taps@[i as int]@);
        if same(d.taps[i].net.as_str(), net) {
            let p = d.taps[i].tap;
            draw_tee(&mut d.w, net, p);
        }
        assert(d@ =~= b.on(tap_tees(e, net@, b.taps, i + 1)));
        i += 1;
    }
    assert(b.taps.len() == d.taps@.len());
}

// ---------------------------------------------------------------- labels
/// Whether an earlier end of the net belongs to the same pin.
pub open spec fn pin_seen(v: Seq<SigV>, s: SigV, n: int) -> bool {
    exists|k: int|
        0 <= k < n && (#[trigger] v[k]).net == s.net && v[k].refdes == s.refdes && v[k].pin == s.pin
}

/// The sheet with a label on a stub at every end of each pin of a net, up to the first `n` ends.
pub open spec fn pins_labelled(w: WriterV, g: Gallery, net: Seq<char>, v: Seq<SigV>, n: int) -> Result<
    WriterV,
    EmitErrorV,
>
    decreases n,
{
    if n <= 0 {
        Ok(w)
    } else {
        match pins_labelled(w, g, net, v, n - 1) {
            Err(e) => Err(e),
            Ok(x) => {
                let s = v[n - 1];
                if s.net != net || pin_seen(v, s, n - 1) {
                    Ok(x)
                } else {
                    match emit::pin_ends(x, g, s.refdes, s.pin) {
                        Err(e) => Err(e),
                        Ok(ends) => Ok(
                            WriterV {
                                labels: x.labels + emit::stub_labels(
                                    ends,
                                    s.refdes,
                                    s.pin,
                                    net,
                                    ends.len() as int,
                                ),
                                ..x
                            },
                        ),
                    }
                }
            },
        }
    }
}

/// The label of a cluster on its net.
pub open spec fn cluster_label(net: Seq<char>, at: Pt, dir: Dir) -> PinLabelV {
    let p = emit::snap_of(at);
    PinLabelV { net, at: p, key: "cluster:"@ + net + ":"@ + emit::point_key(p), dir, stub: None }
}

pub open spec fn taps_labelled(w: WriterV, net: Seq<char>, v: Seq<TapV>, n: int) -> WriterV
    decreases n,
{
    if n <= 0 {
        w
    } else {
        let x = taps_labelled(w, net, v, n - 1);
        let t = v[n - 1];
        if t.net == net {
            let y = x.with_wire(t.tap, t.label, Some(net));
            WriterV { labels: y.labels.push(cluster_label(net, t.label, t.dir)), ..y }
        } else {
            x
        }
    }
}

pub open spec fn fallback_note(block: Seq<char>, net: Seq<char>) -> Seq<char> {
    "route: block "@ + block + ": net "@ + net + " fell back to labels"@
}

/// The block that a net touches first.
pub open spec fn first_block(v: Seq<(Seq<char>, Seq<char>)>, net: Seq<char>) -> Seq<char> {
    match order_map::look(v, net) {
        Some(b) => b,
        None => ""@,
    }
}

/// The draft after one net: wired along its route if it may be wired and has one, else labelled,
/// with a note if it might have been wired.
pub open spec fn net_drawn(d: DraftV, g: Gallery, routes: Seq<NetRoute>, net: Seq<char>) -> Drawn {
    let can = may_wire(d, net);
    let i = route_at(routes, net, 0);
    if can && i < routes.len() {
        Ok(d.on(net_wired(d, net, routes[i])))
    } else {
        match pins_labelled(d.w, g, net, d.signals, d.signals.len() as int) {
            Err(e) => Err(e),
            Ok(w) => {
                let x = d.on(taps_labelled(w, net, d.taps, d.taps.len() as int));
                Ok(
                    if can {
                        DraftV {
                            notes: x.notes.push(fallback_note(first_block(d.touched, net), net)),
                            ..x
                        }
                    } else {
                        x
                    },
                )
            },
        }
    }
}

fn is_pin_seen(v: &Vec<Sig>, j: usize) -> (r: bool)
    requires
        j < v@.len(),
    ensures
        r == pin_seen(reemit::sigs_v(v@), reemit::sigs_v(v@)[j as int], j as int),
{
    let ghost m = reemit::sigs_v(v@);
    let mut i: usize = 0;
    assert(m[j as int] == v@[j as int]@);
    while i < j
        invariant
            i <= j < v@.len(),
            m == reemit::sigs_v(v@),
            m[j as int] == v@[j as int]@,
            forall|k: int|
                0 <= k < i ==> !((#[trigger] m[k]).net == m[j as int].net && m[k].refdes
                    == m[j as int].refdes && m[k].pin == m[j as int].pin),
        decreases j - i,
    {
        assert(m[i as int] == v@[i as int]@);
        if same(v[i].net.as_str(), v[j].net.as_str()) && same(
            v[i].refdes.as_str(),
            v[j].refdes.as_str(),
        ) && same(v[i].pin.as_str(), v[j].pin.as_str()) {
            return true;
        }
        i += 1;
    }
    false
}

proof fn lemma_pins_err(w: WriterV, g: Gallery, net: Seq<char>, v: Seq<SigV>, n: int, m: int)
    requires
        0 <= n <= m,
        pins_labelled(w, g, net, v, n) is Err,
    ensures
        pins_labelled(w, g, net, v, m) == pins_labelled(w, g, net, v, n),
    decreases m - n,
{
    if n < m {
        lemma_pins_err(w, g, net, v, n, m - 1);
    }
}

fn label_pins(d: &mut Draft, gallery: &Gallery, net: &str) -> (r: Result<(), EmitError>)
    ensures
        reemit::comes_out(
            r,
            final(d)@,
            match pins_labelled(
                old(d)@.w,
                *gallery,
                net@,
                old(d)@.signals,
                old(d)@.signals.len() as int,
            ) {
                Ok(w) => Ok(old(d)@.on(w)),
                Err(e) => Err(e),
            },
        ),
{
    let ghost b = d@;
    let mut i: usize = 0;
    assert(d@ =~= b.on(b.w));
    while i < d.signals.len()
        invariant
            i <= d.signals@.len(),
            b == old(d)@,
            b.signals == reemit::sigs_v(d.signals@),
            d@ == b.on(d@.w),
            pins_labelled(b.w, *gallery, net@, b.signals, i as int) == Ok::<WriterV, EmitErrorV>(
                d@.w,
            ),
        decreases d.signals@.len() - i,
    {
        assert(b.signals[i as int] == d.signals@[i as int]@);
        if same(d.signals[i].net.as_str(), net) && !is_pin_seen(&d.signals, i) {
            let s = &d.signals[i];
            match d.w.add_signal_label(gallery, s.refdes.as_str(), s.pin.as_str(), net) {
                Ok(_) => {},
                Err(e) => {
                    proof {
                        lemma_pins_err(
                            b.w,
                            *gallery,
                            net@,
                            b.signals,
                            i + 1,
                            b.signals.len() as int,
                        );
                    }
                    return Err(e);
                },
            }
        }
        assert(d@ =~= b.on(d@.w));
        i += 1;
    }
    assert(b.signals.len() == d.signals@.len());
    Ok(())
}

fn label_taps(d: &mut Draft, net: &str)
    ensures
        final(d)@ == old(d)@.on(
            taps_labelled(old(d)@.w, net@, old(d)@.taps, old(d)@.taps.len() as int),
        ),
{
    let ghost b = d@;
    let mut i: usize = 0;
    assert(d@ =~= b.on(b.w));
    while i < d.taps.len()
        invariant
            i <= d.taps@.len(),
            b.taps == reemit::taps_v(d.taps@),
            d@ == b.on(taps_labelled(b.w, net@, b.taps, i as int)),
        decreases d.taps@.len() - i,
    {
        assert(b.taps[i as int] == d.taps@[i as int]@);
        if same(d.taps[i].net.as_str(), net) {
            let (tap, lp, dir) = (d.taps[i].tap, d.taps[i].label, d.taps[i].dir);
            d.w.add_wire_on_net(tap, lp, net);
            let ghost y = d@.w;
            let p = snap_point(lp);
            let x = emit::fmt_coord(p.x);
            let yy = emit::fmt_coord(p.y);
            let pk = Line::of(x.as_str()).add(":").add(yy.as_str()).done();
            let key = Line::of("cluster:").add(net).add(":").add(pk.as_str()).done();
            let l = PinLabel { net: net.to_owned(), at: p, key, dir, stub: None };
            let ghost lv = l@;
            d.w.labels.push(l);
            assert(emit::labels_v(d.w.labels@) =~= y.labels.push(lv));
            assert(d.w@ =~= WriterV { labels: y.labels.push(lv), ..y });
        }
        assert(d@ =~= b.on(taps_labelled(b.w, net@, b.taps, i + 1)));
        i += 1;
    }
    assert(b.taps.len() == d.taps@.len());
}

fn block_of_net(v: &Vec<(String, String)>, net: &str) -> (r: String)
    ensures
        r@ == first_block(emit::pairs_v(v@), net@),
{
    let ghost m = emit::pairs_v(v@);
    let mut i: usize = 0;
    while i < v.len()
        invariant
            i <= v@.len(),
            m == emit::pairs_v(v@),
            order_map::seek(m, net@, 0) == order_map::seek(m, net@, i as int),
        decreases v@.len() - i,
    {
        assert(m[i as int] == (v@[i as int].0@, v@[i as int].1@));
        if same(v[i].0.as_str(), net) {
            return v[i].1.clone();
        }
        i += 1;
    }
    "".to_owned()
}

/// Connects one net: wired along its route if it may be wired and has one, else labelled, with a
/// note if it might have been wired.
pub fn draw_net(d: &mut Draft, gallery: &Gallery, routes: &Vec<NetRoute>, net: &str) -> (r: Result<
    (),
    EmitError,
>)
    ensures
        reemit::comes_out(r, final(d)@, net_drawn(old(d)@, *gallery, routes@, net@)),
{
    let ghost b = d@;
    let can = routable(d, net);
    let mut i: usize = 0;
    while i < routes.len() && !same(routes[i].net.as_str(), net)
        invariant
            i <= routes@.len(),
            route_at(routes@, net@, 0) == route_at(routes@, net@, i as int),
        decreases routes@.len() - i,
    {
        i += 1;
    }
    if can && i < routes.len() {
        wire_net(d, net, &routes[i]);
        return Ok(());
    }
    match label_pins(d, gallery, net) {
        Ok(_) => {},
        Err(e) => return Err(e),
    }
    label_taps(d, net);
    if can {
        let ghost x = d@;
        let blk = block_of_net(&d.touched, net);
        let note = Line::of("route: block ").add(blk.as_str()).add(": net ").add(net).add(
            " fell back to labels",
        ).done();
        let ghost nv = note@;
        d.notes.push(note);
        assert(text::views(d.notes@) =~= x.notes.push(nv));
        assert(d@ =~= DraftV { notes: x.notes.push(nv), ..x });
    }
    Ok(())
}

/// The draft after the first `n` nets.
pub open spec fn nets_drawn(
    d: DraftV,
    g: Gallery,
    routes: Seq<NetRoute>,
    nets: Seq<Seq<char>>,
    n: int,
) -> Drawn
    decreases n,
{
    if n <= 0 {
        Ok(d)
    } else {
        match nets_drawn(d, g, routes, nets, n - 1) {
            Err(e) => Err(e),
            Ok(x) => net_drawn(x, g, routes, nets[n - 1]),
        }
    }
}

proof fn lemma_nets_err(
    d: DraftV,
    g: Gallery,
    routes: Seq<NetRoute>,
    nets: Seq<Seq<char>>,
    n: int,
    m: int,
)
    requires
        0 <= n <= m,
        nets_drawn(d, g, routes, nets, n) is Err,
    ensures
        nets_drawn(d, g, routes, nets, m) == nets_drawn(d, g, routes, nets, n),
    decreases m - n,
{
    if n < m {
        lemma_nets_err(d, g, routes, nets, n, m - 1);
    }
}

fn draw_nets(d: &mut Draft, gallery: &Gallery, routes: &Vec<NetRoute>) -> (r: Result<(), EmitError>)
    ensures
        reemit::comes_out(
            r,
            final(d)@,
            nets_drawn(
                old(d)@,
                *gallery,
                routes@,
                open_nets(old(d)@),
                open_nets(old(d)@).len() as int,
            ),
        ),
{
    let ghost b = d@;
    let nets = pending_nets(d);
    let ghost nv = text::views(nets@);
    let mut i: usize = 0;
    while i < nets.len()
        invariant
            i <= nets@.len(),
            b == old(d)@,
            nv == text::views(nets@),
            nv == open_nets(b),
            nets_drawn(b, *gallery, routes@, nv, i as int) == Ok::<DraftV, EmitErrorV>(d@),
        decreases nets@.len() - i,
    {
        assert(nv[i as int] == nets@[i as int]@);
        match draw_net(d, gallery, routes, nets[i].as_str()) {
            Ok(_) => {},
            Err(e) => {
                proof {
                    lemma_nets_err(b, *gallery, routes@, nv, i + 1, nets@.len() as int);
                }
                return Err(e);
            },
        }
        i += 1;
    }
    assert(nv.len() == nets@.len());
    Ok(())
}

// ---------------------------------------------------------------- frames
/// The box a component takes: its size around its place.
pub open spec fn part_box(
    emitted: Seq<(Seq<char>, Pt)>,
    sizes: Seq<(String, (i64, i64))>,
    refdes: Seq<char>,
) -> BBox {
    let at = reconcile::or_origin(order_map::look(emitted, refdes));
    let (hw, hh) = match order_map::look(reconcile::named(sizes), refdes) {
        Some(s) => (s.0 as int / 2, s.1 as int / 2),
        None => (1_270_000, 1_270_000),
    };
    render::cut_box(at.x - hw, at.y - hh, at.x + hw, at.y + hh)
}

pub open spec fn around(a: BBox, b: BBox) -> BBox {
    BBox {
        x0: geom::lo(a.x0 as int, b.x0 as int) as i64,
        y0: geom::lo(a.y0 as int, b.y0 as int) as i64,
        x1: geom::hi(a.x1 as int, b.x1 as int) as i64,
        y1: geom::hi(a.y1 as int, b.y1 as int) as i64,
    }
}

/// The box around the first `n` components of a block.
pub open spec fn block_box(
    emitted: Seq<(Seq<char>, Pt)>,
    sizes: Seq<(String, (i64, i64))>,
    b: Block,
    n: int,
) -> BBox
    decreases n,
{
    let own = part_box(emitted, sizes, b.components@[n - 1].0@);
    if n <= 1 {
        own
    } else {
        around(block_box(emitted, sizes, b, n - 1), own)
    }
}

/// The sheet with the frame, the title and the note of a block.
pub open spec fn framed(w: WriterV, name: Seq<char>, note: Option<Seq<char>>, b: BBox) -> WriterV {
    let start = reemit::cut_pt(b.x0 - 762_000, b.y0 - 762_000);
    let end = reemit::cut_pt(b.x1 + 762_000, b.y1 + 762_000);
    let x = w.with_rect(start, end, "frame:"@ + name).with_text(
        name,
        reemit::cut_pt(start.x as int, start.y - 127_000),
        254_000,
        true,
        "title:"@ + name,
    );
    match note {
        Some(t) => x.with_text(
            t,
            reemit::cut_pt(start.x as int, end.y + 381_000),
            127_000,
            false,
            "note:"@ + name,
        ),
        None => x,
    }
}

pub open spec fn frames_drawn(
    w: WriterV,
    emitted: Seq<(Seq<char>, Pt)>,
    sizes: Seq<(String, (i64, i64))>,
    blocks: Seq<(String, Block)>,
    n: int,
) -> WriterV
    decreases n,
{
    if n <= 0 {
        w
    } else {
        let x = frames_drawn(w, emitted, sizes, blocks, n - 1);
        let b = blocks[n - 1].1;
        if b.components@.len() == 0 {
            x
        } else {
            framed(
                x,
                blocks[n - 1].0@,
                tree::text_v(b.note),
                block_box(emitted, sizes, b, b.components@.len() as int),
            )
        }
    }
}

fn cut4(x0: i128, y0: i128, x1: i128, y1: i128) -> (r: BBox)
    ensures
        r == render::cut_box(x0 as int, y0 as int, x1 as int, y1 as int),
        orient::fits(r.x0 as int) && orient::fits(r.y0 as int) && orient::fits(r.x1 as int)
            && orient::fits(r.y1 as int),
{
    BBox { x0: cut_wide(x0), y0: cut_wide(y0), x1: cut_wide(x1), y1: cut_wide(y1) }
}

pub open spec fn cut_ok(b: BBox) -> bool {
    orient::fits(b.x0 as int) && orient::fits(b.y0 as int) && orient::fits(b.x1 as int)
        && orient::fits(b.y1 as int)
}

fn find_part_box(
    emitted: &Vec<(String, Pt)>,
    sizes: &Vec<(String, (i64, i64))>,
    refdes: &str,
) -> (r: BBox)
    ensures
        r == part_box(reconcile::named(emitted@), sizes@, refdes@),
        cut_ok(r),
{
    let at = match find_named(emitted, refdes) {
        Some(p) => *p,
        None => Pt { x: 0, y: 0 },
    };
    let (hw, hh): (i64, i64) = match find_named(sizes, refdes) {
        Some(s) => (emit::half(s.0), emit::half(s.1)),
        None => (1_270_000, 1_270_000),
    };
    cut4(
        at.x as i128 - hw as i128,
        at.y as i128 - hh as i128,
        at.x as i128 + hw as i128,
        at.y as i128 + hh as i128,
    )
}

fn find_block_box(
    emitted: &Vec<(String, Pt)>,
    sizes: &Vec<(String, (i64, i64))>,
    b: &Block,
) -> (r: BBox)
    requires
        b.components@.len() > 0,
    ensures
        r == block_box(reconcile::named(emitted@), sizes@, *b, b.components@.len() as int),
        cut_ok(r),
{
    let mut r = find_part_box(emitted, sizes, b.components[0].0.as_str());
    let mut i: usize = 1;
    while i < b.components.len()
        invariant
            1 <= i <= b.components@.len(),
            r == block_box(reconcile::named(emitted@), sizes@, *b, i as int),
            cut_ok(r),
        decreases b.components@.len() - i,
    {
        let o = find_part_box(emitted, sizes, b.components[i].0.as_str());
        r = BBox {
            x0: min_i(r.x0, o.x0),
            y0: min_i(r.y0, o.y0),
            x1: max_i(r.x1, o.x1),
            y1: max_i(r.y1, o.y1),
        };
        i += 1;
    }
    r
}

fn cut2(x: i128, y: i128) -> (r: Pt)
    ensures
        r == reemit::cut_pt(x as int, y as int),
{
    Pt { x: cut_wide(x), y: cut_wide(y) }
}

fn draw_frame(w: &mut SchematicWriter, name: &str, note: &Option<String>, b: BBox)
    ensures
        final(w)@ == framed(old(w)@, name@, tree::text_v(*note), b),
{
    let start = cut2(b.x0 as i128 - 762_000, b.y0 as i128 - 762_000);
    let end = cut2(b.x1 as i128 + 762_000, b.y1 as i128 + 762_000);
    let key = Line::of("frame:").add(name).done();
    w.add_rect(start, end, key.as_str());
    let key = Line::of("title:").add(name).done();
    w.add_text(
        name,
        cut2(start.x as i128, start.y as i128 - 127_000),
        254_000,
        true,
        key.as_str(),
    );
    if let Some(t) = note {
        let key = Line::of("note:").add(name).done();
        w.add_text(
            t.as_str(),
            cut2(start.x as i128, end.y as i128 + 381_000),
            127_000,
            false,
            key.as_str(),
        );
    }
}

fn draw_frames(d: &mut Draft, sizes: &Vec<(String, (i64, i64))>, blocks: &Vec<(String, Block)>)
    ensures
        final(d)@ == old(d)@.on(
            frames_drawn(
                old(d)@.w,
                old(d)@.emitted,
                sizes@,
                blocks@,
                blocks@.len() as int,
            ),
        ),
{
    let ghost b = d@;
    let mut i: usize = 0;
    assert(d@ =~= b.on(b.w));
    while i < blocks.len()
        invariant
            i <= blocks@.len(),
            d@ == b.on(frames_drawn(b.w, b.emitted, sizes@, blocks@, i as int)),
        decreases blocks@.len() - i,
    {
        if blocks[i].1.components.len() > 0 {
            let bx = find_block_box(&d.emitted, sizes, &blocks[i].1);
            draw_frame(&mut d.w, blocks[i].0.as_str(), &blocks[i].1.note, bx);
        }
        assert(d@ =~= b.on(frames_drawn(b.w, b.emitted, sizes@, blocks@, i + 1)));
        i += 1;
    }
}

// ---------------------------------------------------------------- findings
/// The pairs of the first `k` members with member `j`, the lesser name first.
pub open spec fn mates_of(m: Seq<String>, j: int, k: int) -> Seq<(Seq<char>, Seq<char>)>
    decreases k,
{
    if k <= 0 {
        Seq::empty()
    } else {
        let (a, b) = (m[k - 1]@, m[j]@);
        mates_of(m, j, k - 1).push(
            if text::before(b, a) {
                (b, a)
            } else {
                (a, b)
            },
        )
    }
}

/// All pairs among the first `n` members.
pub open spec fn mates(m: Seq<String>, n: int) -> Seq<(Seq<char>, Seq<char>)>
    decreases n,
{
    if n <= 0 {
        Seq::empty()
    } else {
        mates(m, n - 1) + mates_of(m, n - 1, n - 1)
    }
}

pub open spec fn graph_mates(g: BlockGraph, n: int) -> Seq<(Seq<char>, Seq<char>)>
    decreases n,
{
    if n <= 0 {
        Seq::empty()
    } else {
        graph_mates(g, n - 1) + mates(
            g.clusters@[n - 1].members@,
            g.clusters@[n - 1].members@.len() as int,
        )
    }
}

/// The members of one cluster, pair by pair: they are meant to stand close.
pub open spec fn close_pairs(v: Seq<(String, BlockGraph)>, n: int) -> Seq<(Seq<char>, Seq<char>)>
    decreases n,
{
    if n <= 0 {
        Seq::empty()
    } else {
        close_pairs(v, n - 1) + graph_mates(v[n - 1].1, v[n - 1].1.clusters@.len() as int)
    }
}

fn add_mates(out: &mut Vec<(String, String)>, m: &Vec<String>)
    ensures
        emit::pairs_v(final(out)@) == emit::pairs_v(old(out)@) + mates(m@, m@.len() as int),
{
    let ghost b = emit::pairs_v(out@);
    let mut j: usize = 0;
    assert(emit::pairs_v(out@) =~= b + mates(m@, 0));
    while j < m.len()
        invariant
            j <= m@.len(),
            emit::pairs_v(out@) == b + mates(m@, j as int),
        decreases m@.len() - j,
    {
        let ghost c = emit::pairs_v(out@);
        let mut k: usize = 0;
        assert(emit::pairs_v(out@) =~= c + mates_of(m@, j as int, 0));
        while k < j
            invariant
                k <= j < m@.len(),
                emit::pairs_v(out@) == c + mates_of(m@, j as int, k as int),
            decreases j - k,
        {
            let ghost e = emit::pairs_v(out@);
            let (a, o) = (&m[k], &m[j]);
            if is_before(o.as_str(), a.as_str()) {
                out.push((o.clone(), a.clone()));
                assert(emit::pairs_v(out@) =~= e.push((o@, a@)));
            } else {
                out.push((a.clone(), o.clone()));
                assert(emit::pairs_v(out@) =~= e.push((a@, o@)));
            }
            assert(emit::pairs_v(out@) =~= c + mates_of(m@, j as int, k + 1));
            k += 1;
        }
        assert(emit::pairs_v(out@) =~= b + mates(m@, j + 1));
        j += 1;
    }
}

fn list_close(v: &Vec<(String, BlockGraph)>) -> (r: Vec<(String, String)>)
    ensures
        emit::pairs_v(r@) == close_pairs(v@, v@.len() as int),
{
    let mut r: Vec<(String, String)> = Vec::new();
    let mut i: usize = 0;
    assert(emit::pairs_v(r@) =~= Seq::empty());
    while i < v.len()
        invariant
            i <= v@.len(),
            emit::pairs_v(r@) == close_pairs(v@, i as int),
        decreases v@.len() - i,
    {
        let g = &v[i].1;
        let ghost b = emit::pairs_v(r@);
        let mut k: usize = 0;
        assert(emit::pairs_v(r@) =~= b + graph_mates(*g, 0));
        while k < g.clusters.len()
            invariant
                k <= g.clusters@.len(),
                emit::pairs_v(r@) == b + graph_mates(*g, k as int),
            decreases g.clusters@.len() - k,
        {
            add_mates(&mut r, &g.clusters[k].members);
            assert(emit::pairs_v(r@) =~= b + graph_mates(*g, k + 1));
            k += 1;
        }
        i += 1;
    }
    r
}

/// What the grammar had to give up in the first `n` blocks.
pub open spec fn given_up(v: Seq<(String, BlockGraph)>, n: int) -> Seq<Seq<char>>
    decreases n,
{
    if n <= 0 {
        Seq::empty()
    } else {
        given_up(v, n - 1) + text::quoted(
            text::views(v[n - 1].1.degradations@),
            "grammar: "@,
            ""@,
        )
    }
}

/// The area that a component takes, within bounds.
pub open spec fn part_area(sizes: Seq<(String, (i64, i64))>, refdes: Seq<char>) -> int {
    match order_map::look(reconcile::named(sizes), refdes) {
        Some(s) => orient::cut(s.0 as int) * orient::cut(s.1 as int),
        None => 1_290_000_000_000,
    }
}

pub open spec fn bounded(v: int) -> int {
    geom::lo(
        geom::hi(v, -0x1_0000_0000_0000_0000_0000_0000_0000),
        0x1_0000_0000_0000_0000_0000_0000_0000,
    )
}

/// The area that the first `n` components of a block take.
pub open spec fn content(sizes: Seq<(String, (i64, i64))>, b: Block, n: int) -> int
    decreases n,
{
    if n <= 0 {
        0
    } else {
        bounded(content(sizes, b, n - 1) + part_area(sizes, b.components@[n - 1].0@))
    }
}

/// A quotient to the nearest whole number, a tie to the even one.
pub open spec fn nearest_even(a: int, b: int) -> int {
    let q = a / b;
    let r = a % b;
    if 2 * r > b || (2 * r == b && q % 2 == 1) {
        q + 1
    } else {
        q
    }
}

/// What is reported of a block: that its frame is far larger than what it holds.
pub open spec fn sparse_note(
    emitted: Seq<(Seq<char>, Pt)>,
    sizes: Seq<(String, (i64, i64))>,
    name: Seq<char>,
    b: Block,
) -> Seq<Seq<char>> {
    let n = b.components@.len() as int;
    let bx = block_box(emitted, sizes, b, n);
    let frame = (bx.x1 - bx.x0) * (bx.y1 - bx.y0);
    let c = content(sizes, b, n);
    if n > 0 && c > 0 && frame > 8 * c {
        seq![
            "sparse: block "@ + name + " frame is "@ + text::digits(nearest_even(frame, c) as nat)
                + "x its content area"@,
        ]
    } else {
        Seq::empty()
    }
}

pub open spec fn sparse_notes(
    emitted: Seq<(Seq<char>, Pt)>,
    sizes: Seq<(String, (i64, i64))>,
    blocks: Seq<(String, Block)>,
    n: int,
) -> Seq<Seq<char>>
    decreases n,
{
    if n <= 0 {
        Seq::empty()
    } else {
        sparse_notes(emitted, sizes, blocks, n - 1) + sparse_note(
            emitted,
            sizes,
            blocks[n - 1].0@,
            blocks[n - 1].1,
        )
    }
}

fn area_of(sizes: &Vec<(String, (i64, i64))>, refdes: &str) -> (r: i128)
    ensures
        r == part_area(sizes@, refdes@),
        -0x1_0000_0000_0000_0000_0000_0000 <= r <= 0x1_0000_0000_0000_0000_0000_0000,
{
    match find_named(sizes, refdes) {
        Some(s) => {
            let (a, b) = (cut_off(s.0) as i128, cut_off(s.1) as i128);
            assert(-0x1_0000_0000_0000_0000_0000_0000 <= a * b
                <= 0x1_0000_0000_0000_0000_0000_0000) by (nonlinear_arith)
                requires
                    -0x80_0000_0000 <= a <= 0x80_0000_0000,
                    -0x80_0000_0000 <= b <= 0x80_0000_0000,
            ;
            a * b
        },
        None => 1_290_000_000_000,
    }
}

fn bound(v: i128) -> (r: i128)
    ensures
        r == bounded(v as int),
        -0x1_0000_0000_0000_0000_0000_0000_0000 <= r <= 0x1_0000_0000_0000_0000_0000_0000_0000,
{
    if v > 0x1_0000_0000_0000_0000_0000_0000_0000 {
        0x1_0000_0000_0000_0000_0000_0000_0000
    } else if v < -0x1_0000_0000_0000_0000_0000_0000_0000 {
        -0x1_0000_0000_0000_0000_0000_0000_0000
    } else {
        v
    }
}

fn add_sparse(
    out: &mut Vec<String>,
    emitted: &Vec<(String, Pt)>,
    sizes: &Vec<(String, (i64, i64))>,
    name: &str,
    b: &Block,
)
    ensures
        text::views(final(out)@) == text::views(old(out)@) + sparse_note(
            reconcile::named(emitted@),
            sizes@,
            name@,
            *b,
        ),
{
    let ghost o = text::views(out@);
    let ghost ev = reconcile::named(emitted@);
    assert(o =~= o + Seq::<Seq<char>>::empty());
    if b.components.len() == 0 {
        return;
    }
    let bx = find_block_box(emitted, sizes, b);
    let mut c: i128 = 0;
    let mut i: usize = 0;
    while i < b.components.len()
        invariant
            i <= b.components@.len(),
            c == content(sizes@, *b, i as int),
            -0x1_0000_0000_0000_0000_0000_0000_0000 <= c
                <= 0x1_0000_0000_0000_0000_0000_0000_0000,
        decreases b.components@.len() - i,
    {
        c = bound(c + area_of(sizes, b.components[i].0.as_str()));
        i += 1;
    }
    let (dx, dy) = (bx.x1 as i128 - bx.x0 as i128, bx.y1 as i128 - bx.y0 as i128);
    assert(-0x1_0000_0000_0000_0000_0000_0000 <= dx * dy <= 0x1_0000_0000_0000_0000_0000_0000)
        by (nonlinear_arith)
        requires
            -0x100_0000_0000 <= dx <= 0x100_0000_0000,
            -0x100_0000_0000 <= dy <= 0x100_0000_0000,
    ;
    let frame: i128 = dx * dy;
    if c > 0 && frame > 8 * c {
        let (f, k) = (frame as u128, c as u128);
        let q: u128 = f / k;
        let r: u128 = f % k;
        let times: u128 = if 2 * r > k || (2 * r == k && q % 2 == 1) { q + 1 } else { q };
        assert(times == nearest_even(frame as int, c as int));
        let note = Line::of("sparse: block ").add(name).add(" frame is ").count(times).add(
            "x its content area",
        ).done();
        let ghost nv = note@;
        out.push(note);
        assert(text::views(out@) =~= o + seq![nv]);
    }
}

// ---------------------------------------------------------------- the whole
/// A sheet with its findings.
#[derive(Debug)]
pub struct EmitOutput {
    /// The document.
    pub sch: String,
    /// Overlaps and what the layout had to give up.
    pub layout_warnings: Vec<String>,
    /// How many components of each block were placed anew.
    pub relayout_blocks: Vec<(String, u64)>,
}

#[verifier::ext_equal]
pub struct EmitOutputV {
    pub sch: Seq<char>,
    pub layout_warnings: Seq<Seq<char>>,
    pub relayout_blocks: Seq<(Seq<char>, u64)>,
}

impl EmitOutput {
    pub open spec fn view(&self) -> EmitOutputV {
        EmitOutputV {
            sch: self.sch@,
            layout_warnings: text::views(self.layout_warnings@),
            relayout_blocks: reconcile::named(self.relayout_blocks@),
        }
    }
}

/// The output that a finished draft makes: its frames drawn, its stubs settled.
pub open spec fn output(d: DraftV, design: Design, gi: GrammarInputs) -> EmitOutputV {
    let blocks = design.blocks@;
    let w = frames_drawn(d.w, d.emitted, gi.sizes@, blocks, blocks.len() as int);
    let settled = retract::retracted(w);
    EmitOutputV {
        sch: render::document(retract::retracted(settled)),
        layout_warnings: render::findings(settled, close_pairs(gi.graphs@, gi.graphs@.len() as int))
            + given_up(gi.graphs@, gi.graphs@.len() as int) + d.notes + sparse_notes(
            d.emitted,
            gi.sizes@,
            blocks,
            blocks.len() as int,
        ),
        relayout_blocks: d.counts,
    }
}

fn append(out: &mut Vec<String>, v: &Vec<String>)
    ensures
        text::views(final(out)@) == text::views(old(out)@) + text::views(v@),
{
    let ghost o = text::views(out@);
    let ghost vv = text::views(v@);
    let mut i: usize = 0;
    assert(text::views(out@) =~= o + vv.take(0));
    while i < v.len()
        invariant
            i <= v@.len(),
            vv == text::views(v@),
            text::views(out@) == o + vv.take(i as int),
        decreases v@.len() - i,
    {
        let ghost c = text::views(out@);
        out.push(v[i].clone());
        assert(text::views(out@) =~= c.push(vv[i as int]));
        assert(text::views(out@) =~= o + vv.take(i + 1));
        i += 1;
    }
    assert(vv.take(i as int) =~= vv);
}

fn finish_draft(draft: Draft, design: &Design, gi: &GrammarInputs) -> (r: EmitOutput)
    ensures
        r@ == output(draft@, *design, *gi),
{
    let mut d = draft;
    let ghost b = d@;
    draw_frames(&mut d, &gi.sizes, &design.blocks);
    let ghost f = d@.w;
    d.w.retract_colliding_stubs();
    let close = list_close(&gi.graphs);
    let mut out = d.w.layout_warnings_excluding(&close);
    let ghost base = text::views(out@);
    let mut i: usize = 0;
    assert(text::views(out@) =~= base + given_up(gi.graphs@, 0));
    while i < gi.graphs.len()
        invariant
            i <= gi.graphs@.len(),
            text::views(out@) == base + given_up(gi.graphs@, i as int),
        decreases gi.graphs@.len() - i,
    {
        let q = text::quote_all(&gi.graphs[i].1.degradations, "grammar: ", "");
        append(&mut out, &q);
        assert(text::views(out@) =~= base + given_up(gi.graphs@, i + 1));
        i += 1;
    }
    append(&mut out, &d.notes);
    let ghost mid = text::views(out@);
    i = 0;
    assert(text::views(out@) =~= mid + sparse_notes(b.emitted, gi.sizes@, design.blocks@, 0));
    while i < design.blocks.len()
        invariant
            i <= design.blocks@.len(),
            b.emitted == reconcile::named(d.emitted@),
            text::views(out@) == mid + sparse_notes(
                b.emitted,
                gi.sizes@,
                design.blocks@,
                i as int,
            ),
        decreases design.blocks@.len() - i,
    {
        add_sparse(
            &mut out,
            &d.emitted,
            &gi.sizes,
            design.blocks[i].0.as_str(),
            &design.blocks[i].1,
        );
        assert(text::views(out@) =~= mid + sparse_notes(
            b.emitted,
            gi.sizes@,
            design.blocks@,
            i + 1,
        ));
        i += 1;
    }
    let Draft { w, counts, .. } = d;
    let sch = w.finish();
    EmitOutput { sch, layout_warnings: out, relayout_blocks: counts }
}

/// The power nets among the first `n` nets, in ascending order.
pub open spec fn power_nets(v: Seq<(String, bool)>, n: int) -> Seq<Seq<char>>
    decreases n,
{
    if n <= 0 {
        Seq::empty()
    } else if v[n - 1].1 {
        names::set_add(power_nets(v, n - 1), v[n - 1].0@)
    } else {
        power_nets(v, n - 1)
    }
}

/// The pin ends that joins wire.
pub open spec fn join_ends(v: Seq<(Pt, Pt, String)>) -> Seq<Pt> {
    Seq::new(v.len(), |i: int| emit::snap_of(v[i].0))
}

/// What the pins of a circuit are written against.
pub open spec fn rails_of(design: Design, auto: Layout) -> RailsV {
    RailsV {
        power: power_nets(design.nets@, design.nets@.len() as int),
        joins: join_ends(auto.joins@),
    }
}

fn make_rails(design: &Design, auto: &Layout) -> (r: Rails)
    ensures
        r@ == rails_of(*design, *auto),
{
    let mut power: Vec<String> = Vec::new();
    let mut i: usize = 0;
    assert(text::views(power@) =~= Seq::empty());
    while i < design.nets.len()
        invariant
            i <= design.nets@.len(),
            text::views(power@) == power_nets(design.nets@, i as int),
        decreases design.nets@.len() - i,
    {
        if design.nets[i].1 {
            add_distinct(&mut power, design.nets[i].0.clone());
        }
        i += 1;
    }
    let mut joins: Vec<Pt> = Vec::new();
    i = 0;
    while i < auto.joins.len()
        invariant
            i <= auto.joins@.len(),
            joins@.len() == i,
            forall|k: int|
                0 <= k < i ==> #[trigger] joins@[k] == emit::snap_of(auto.joins@[k].0),
        decreases auto.joins@.len() - i,
    {
        joins.push(snap_point(auto.joins[i].0));
        i += 1;
    }
    assert(joins@ =~= join_ends(auto.joins@));
    let r = Rails { power, joins };
    assert(r@ =~= rails_of(*design, *auto));
    r
}

pub open spec fn fresh_draft(counts: Seq<(Seq<char>, u64)>) -> DraftV {
    DraftV {
        w: WriterV::empty(),
        signals: Seq::empty(),
        taps: Seq::empty(),
        touched: Seq::empty(),
        used: Seq::empty(),
        driven: Seq::empty(),
        inputs: Seq::empty(),
        attach: Seq::empty(),
        emitted: Seq::empty(),
        counts,
        ports: 0,
        notes: Seq::empty(),
    }
}

/// The draft of a circuit before its nets are connected: its components at their places, its
/// clusters, its flags.
pub open spec fn drafted(s: Scene, rails: RailsV, design: Design) -> Drawn {
    let o = reconcile::origins_of(
        design,
        *s.gi,
        *s.auto,
        reconcile::prior_v(s.prior@),
        *s.relayout,
        s.gi.graphs@.len() as int,
    );
    match reemit::blocks_drawn(
        fresh_draft(o.counts),
        s,
        o.origins,
        rails,
        design.blocks@,
        design.blocks@.len() as int,
    ) {
        Err(e) => Err(e),
        Ok(a) => match decorate::decorated(
            a,
            *s.gallery,
            *s.provider,
            o.origins,
            *s.gi,
            *s.auto,
        ) {
            Err(e) => Err(e),
            Ok(b) => {
                let nets = decorate::flagged(b, design.nets@);
                decorate::flags_drawn(
                    b,
                    *s.gallery,
                    nets,
                    decorate::rightmost(b.emitted, b.emitted.len() as int) + 5_080_000,
                    nets.len() as int,
                )
            },
        },
    }
}

/// The draft of a circuit before its nets are connected.
pub fn draft_design(s: &Scene, rails: &Rails, design: &Design) -> (r: Result<Draft, EmitError>)
    ensures
        match drafted(*s, rails@, *design) {
            Ok(d) => r is Ok && r->Ok_0@ == d,
            Err(e) => r is Err && r->Err_0@ == e,
        },
{
    let mut counts: Vec<(String, u64)> = Vec::new();
    let origins = resolve_cluster_origins(
        design,
        s.gi,
        s.auto,
        s.prior,
        s.relayout,
        &mut counts,
    );
    let ghost cv = reconcile::named(counts@);
    let mut d = Draft {
        w: SchematicWriter::new(),
        signals: Vec::new(),
        taps: Vec::new(),
        touched: Vec::new(),
        used: Vec::new(),
        driven: Vec::new(),
        inputs: Vec::new(),
        attach: Vec::new(),
        emitted: Vec::new(),
        counts,
        ports: 0,
        notes: Vec::new(),
    };
    assert(d@ =~= fresh_draft(cv));
    match emit_blocks(&mut d, s, &origins, rails, &design.blocks) {
        Ok(_) => {},
        Err(e) => return Err(e),
    }
    match emit_cluster_decoration(&mut d, s.gallery, s.provider, s.gi, &origins, s.auto) {
        Ok(_) => {},
        Err(e) => return Err(e),
    }
    let flags = needs_flag(&d, &design.nets);
    assert(text::views(flags@).len() == flags@.len());
    match draw_flags(&mut d, s.gallery, &flags) {
        Ok(_) => {},
        Err(e) => return Err(e),
    }
    Ok(d)
}

/// The output for a circuit, or why there is none.
pub open spec fn emitted(s: Scene, design: Design, routes: Seq<NetRoute>) -> Result<
    EmitOutputV,
    EmitErrorV,
> {
    match drafted(s, rails_of(design, *s.auto), design) {
        Err(e) => Err(e),
        Ok(d) => {
            let nets = open_nets(d);
            match nets_drawn(d, *s.gallery, routes, nets, nets.len() as int) {
                Err(e) => Err(e),
                Ok(x) => Ok(output(x, design, *s.gi)),
            }
        },
    }
}

/// Writes a circuit. Components that stood on an earlier sheet keep their places where those still
/// hold; labels, marks and flags are made anew. `routes` says how nets were wired; a net without a
/// route is labelled.
pub fn emit_design_reconciled(
    gallery: &Gallery,
    provider: &Provider,
    design: &Design,
    gi: &GrammarInputs,
    auto: &Layout,
    prior: &PriorMap,
    relayout: &Relayout,
    routes: &Vec<NetRoute>,
) -> (r: Result<EmitOutput, EmitError>)
    ensures
        match emitted(
            (Scene { gallery, provider, gi, auto, prior, relayout }),
            *design,
            routes@,
        ) {
            Ok(x) => r is Ok && r->Ok_0@ == x,
            Err(e) => r is Err && r->Err_0@ == e,
        },
{
    let rails = make_rails(design, auto);
    let s = Scene { gallery, provider, gi, auto, prior, relayout };
    let ghost want = emitted(s, *design, routes@);
    let mut d = match draft_design(&s, &rails, design) {
        Ok(d) => d,
        Err(e) => {
            assert(want == Err::<EmitOutputV, EmitErrorV>(e@));
            return Err(e);
        },
    };
    match draw_nets(&mut d, gallery, routes) {
        Ok(_) => {},
        Err(e) => {
            assert(want == Err::<EmitOutputV, EmitErrorV>(e@));
            return Err(e);
        },
    }
    let out = finish_draft(d, design, gi);
    assert(want == Ok::<EmitOutputV, EmitErrorV>(out@));
    Ok(out)
}

} // verus!
