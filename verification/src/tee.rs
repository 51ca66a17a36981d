//! Tees: the terminals of a small net on one straight trunk, each with a stub of its own; and what
//! a wire between two terminals starts from and has to keep clear of.
use crate::emit;
use crate::emit::{snap_sum, Dir, SchematicWriter, WriterV};
use crate::geom;
use crate::geom::{max_i, min_i, BBox, Pt};
use crate::order;
use crate::order::order_by_key;
use crate::plan_cost;
use crate::plan_cost::dir_toward;
use crate::reemit::{Draft, DraftV, SigV, TapV};
use crate::retract;
use crate::retract::push_anchor;
use crate::route::RouteScene;
use crate::text::same;
use vstd::prelude::*;

verus! {

/// How far apart the terminals of a net may be that is drawn as a tee: 30.48 mm.
pub const LOCAL: i64 = 3_048_000;

/// Where a wire ends, and the way it leaves if the end has one.
pub type Term = (Pt, Option<Dir>);

// ---------------------------------------------------------------- the trunk
/// The box around the first `n` terminals.
pub open spec fn extent(v: Seq<Term>, n: int) -> BBox
    decreases n,
{
    let p = v[n - 1].0;
    if n <= 1 {
        BBox { x0: v[0].0.x, y0: v[0].0.y, x1: v[0].0.x, y1: v[0].0.y }
    } else {
        let b = extent(v, n - 1);
        BBox {
            x0: geom::lo(b.x0 as int, p.x as int) as i64,
            y0: geom::lo(b.y0 as int, p.y as int) as i64,
            x1: geom::hi(b.x1 as int, p.x as int) as i64,
            y1: geom::hi(b.y1 as int, p.y as int) as i64,
        }
    }
}

fn extent_of(v: &Vec<Term>) -> (r: BBox)
    requires
        v@.len() > 0,
    ensures
        r == extent(v@, v@.len() as int),
{
    let p = v[0].0;
    let mut b = BBox { x0: p.x, y0: p.y, x1: p.x, y1: p.y };
    let mut i: usize = 1;
    while i < v.len()
        invariant
            1 <= i <= v@.len(),
            b == extent(v@, i as int),
        decreases v@.len() - i,
    {
        let q = v[i].0;
        b = BBox {
            x0: min_i(b.x0, q.x),
            y0: min_i(b.y0, q.y),
            x1: max_i(b.x1, q.x),
            y1: max_i(b.y1, q.y),
        };
        i += 1;
    }
    b
}

/// The coordinates across the trunk, as keys to sort by.
pub open spec fn levels(v: Seq<Term>, across: bool) -> Seq<(i64, i64, i64)> {
    Seq::new(
        v.len(),
        |i: int|
            (
                if across {
                    v[i].0.y
                } else {
                    v[i].0.x
                },
                0,
                0,
            ),
    )
}

/// The lower of the middle coordinates across the trunk.
pub open spec fn middle(v: Seq<Term>, across: bool) -> i64 {
    let k = levels(v, across);
    k[order::by_key(k)[(v.len() - 1) / 2]].0
}

fn middle_of(v: &Vec<Term>, across: bool) -> (r: i64)
    requires
        v@.len() > 0,
    ensures
        r == middle(v@, across),
{
    let mut k: Vec<(i64, i64, i64)> = Vec::new();
    let mut i: usize = 0;
    while i < v.len()
        invariant
            i <= v@.len(),
            k@.len() == i,
            forall|j: int| 0 <= j < i ==> #[trigger] k@[j] == levels(v@, across)[j],
        decreases v@.len() - i,
    {
        let p = v[i].0;
        if across {
            k.push((p.y, 0, 0));
        } else {
            k.push((p.x, 0, 0));
        }
        i += 1;
    }
    assert(k@ =~= levels(v@, across));
    let o = order_by_key(&k);
    let m: usize = (v.len() - 1) / 2;
    assert(order::as_ints(o@)[m as int] == o@[m as int]);
    k[o[m]].0
}

/// A tee: the ends of its trunk, and whether the trunk lies level.
#[derive(Debug, Clone, Copy, PartialEq, Eq, Structural)]
pub struct Tee {
    pub level: bool,
    pub from: Pt,
    pub to: Pt,
}

/// Whether a body stands in the room of a net.
pub open spec fn stands_in(r: BBox, b: BBox) -> bool {
    r.x0 < b.x1 && b.x0 < r.x1 && r.y0 < b.y1 && b.y0 < r.y1
}

/// The tee of a net: none if the net reaches too far or a body stands in its room. The trunk runs
/// the longer way, through the middle terminal.
pub open spec fn local_tee(v: Seq<Term>, solids: Seq<BBox>) -> Option<Tee> {
    let b = extent(v, v.len() as int);
    if b.x1 - b.x0 > LOCAL || b.y1 - b.y0 > LOCAL || (exists|i: int|
        0 <= i < solids.len() && stands_in(#[trigger] solids[i], b)) {
        None
    } else if b.x1 - b.x0 >= b.y1 - b.y0 {
        let y = emit::snapped(middle(v, true) as int);
        Some(Tee { level: true, from: Pt { x: b.x0, y }, to: Pt { x: b.x1, y } })
    } else {
        let x = emit::snapped(middle(v, false) as int);
        Some(Tee { level: false, from: Pt { x, y: b.y0 }, to: Pt { x, y: b.y1 } })
    }
}

/// Where a terminal meets the trunk.
pub open spec fn foot(t: Tee, p: Pt) -> Pt {
    if t.level {
        Pt { x: p.x, y: t.from.y }
    } else {
        Pt { x: t.from.x, y: p.y }
    }
}

/// Whether a foot lies strictly between the ends of the trunk.
pub open spec fn amid(t: Tee, p: Pt) -> bool {
    if t.level {
        t.from.x < p.x < t.to.x
    } else {
        t.from.y < p.y < t.to.y
    }
}

/// The sheet with the stubs of the first `n` terminals, and a junction at each foot amid the trunk.
pub open spec fn with_stubs(w: WriterV, net: Seq<char>, t: Tee, v: Seq<Term>, n: int) -> WriterV
    decreases n,
{
    if n <= 0 {
        w
    } else {
        let u = with_stubs(w, net, t, v, n - 1);
        let p = v[n - 1].0;
        let u = if p == foot(t, p) {
            u
        } else {
            u.with_wire(p, foot(t, p), Some(net))
        };
        if amid(t, p) {
            u.with_junction(foot(t, p))
        } else {
            u
        }
    }
}

/// The sheet with a net drawn as a tee.
pub open spec fn with_tee(w: WriterV, net: Seq<char>, v: Seq<Term>, t: Tee) -> WriterV {
    with_stubs(w.with_wire(t.from, t.to, Some(net)), net, t, v, v.len() as int)
}

/// The tee of a net.
pub fn find_local_tee(v: &Vec<Term>, solids: &Vec<BBox>) -> (r: Option<Tee>)
    requires
        v@.len() > 0,
    ensures
        r == local_tee(v@, solids@),
{
    let b = extent_of(v);
    let wide: i128 = b.x1 as i128 - b.x0 as i128;
    let high: i128 = b.y1 as i128 - b.y0 as i128;
    if wide > LOCAL as i128 || high > LOCAL as i128 {
        return None;
    }
    let mut i: usize = 0;
    while i < solids.len()
        invariant
            i <= solids@.len(),
            forall|j: int| 0 <= j < i ==> !stands_in(#[trigger] solids@[j], b),
            b == extent(v@, v@.len() as int),
        decreases solids@.len() - i,
    {
        let s = solids[i];
        if s.x0 < b.x1 && b.x0 < s.x1 && s.y0 < b.y1 && b.y0 < s.y1 {
            assert(stands_in(solids@[i as int], b));
            return None;
        }
        i += 1;
    }
    if wide >= high {
        let m = snap_sum(0, middle_of(v, true) as i128);
        Some(Tee { level: true, from: Pt { x: b.x0, y: m.y }, to: Pt { x: b.x1, y: m.y } })
    } else {
        let m = snap_sum(middle_of(v, false) as i128, 0);
        Some(Tee { level: false, from: Pt { x: m.x, y: b.y0 }, to: Pt { x: m.x, y: b.y1 } })
    }
}

/// Draws a net as a tee where it can be one; its trunk is then among the wires of the scene.
pub fn route_local_tee(
    w: &mut SchematicWriter,
    net: &str,
    terms: &Vec<Term>,
    scene: &mut RouteScene,
) -> (r: bool)
    requires
        terms@.len() > 0,
    ensures
        final(scene).solids@ == old(scene).solids@,
        final(scene).points@ == old(scene).points@,
        match local_tee(terms@, old(scene).solids@) {
            Some(t) => r && final(w)@ == with_tee(old(w)@, net@, terms@, t) && retract::runs_v(
                final(scene).segments@,
            ) == retract::runs_v(old(scene).segments@).push((t.from, t.to, net@)),
            None => !r && final(w)@ == old(w)@ && final(scene).segments@ == old(
                scene,
            ).segments@,
        },
{
    let t = match find_local_tee(terms, &scene.solids) {
        Some(t) => t,
        None => return false,
    };
    w.add_wire_on_net(t.from, t.to, net);
    let ghost w0 = w@;
    let ghost s0 = retract::runs_v(scene.segments@);
    scene.segments.push((t.from, t.to, net.to_owned()));
    assert(retract::runs_v(scene.segments@) =~= s0.push((t.from, t.to, net@)));
    let mut i: usize = 0;
    while i < terms.len()
        invariant
            i <= terms@.len(),
            w@ == with_stubs(w0, net@, t, terms@, i as int),
        decreases terms@.len() - i,
    {
        let p = terms[i].0;
        let q = if t.level {
            Pt { x: p.x, y: t.from.y }
        } else {
            Pt { x: t.from.x, y: p.y }
        };
        let inner = if t.level {
            t.from.x < p.x && p.x < t.to.x
        } else {
            t.from.y < p.y && p.y < t.to.y
        };
        if p != q {
            w.add_wire_on_net(p, q, net);
        }
        if inner {
            w.add_junction(q);
        }
        i += 1;
    }
    true
}

// ---------------------------------------------------------------- a wire of a draft
/// Where the wire between two terminals starts, the way it leaves, and where it goes: from one
/// that has a direction, the first if both have.
pub open spec fn edge_of(v: Seq<Term>, i: int, j: int) -> (Pt, Dir, Pt) {
    match (v[i].1, v[j].1) {
        (Some(d), _) => (v[i].0, d, v[j].0),
        (None, Some(d)) => (v[j].0, d, v[i].0),
        (None, None) => (v[i].0, plan_cost::heading(v[i].0, v[j].0), v[j].0),
    }
}

/// Where the wire between two terminals starts, the way it leaves, and where it goes.
pub fn edge_start(v: &Vec<Term>, i: usize, j: usize) -> (r: (Pt, Dir, Pt))
    requires
        i < v@.len(),
        j < v@.len(),
    ensures
        r == edge_of(v@, i as int, j as int),
{
    match (v[i].1, v[j].1) {
        (Some(d), _) => (v[i].0, d, v[j].0),
        (None, Some(d)) => (v[j].0, d, v[i].0),
        (None, None) => (v[i].0, dir_toward(v[i].0, v[j].0), v[j].0),
    }
}

/// The pin ends of a net among the first `n`, each with the way out.
pub open spec fn sig_terms(v: Seq<SigV>, net: Seq<char>, n: int) -> Seq<Term>
    decreases n,
{
    if n <= 0 {
        Seq::empty()
    } else {
        let r = sig_terms(v, net, n - 1);
        if v[n - 1].net == net {
            r.push((v[n - 1].at, Some(v[n - 1].dir)))
        } else {
            r
        }
    }
}

/// The cluster taps of a net among the first `n`. A tap may be left any way.
pub open spec fn tap_terms(v: Seq<TapV>, net: Seq<char>, n: int) -> Seq<Term>
    decreases n,
{
    if n <= 0 {
        Seq::empty()
    } else {
        let r = tap_terms(v, net, n - 1);
        if v[n - 1].net == net {
            r.push((v[n - 1].tap, None))
        } else {
            r
        }
    }
}

/// What the wires of a net have to join: its pin ends, then its cluster taps.
pub fn terminals(d: &Draft, net: &str) -> (r: Vec<Term>)
    ensures
        r@ == sig_terms(d@.signals, net@, d@.signals.len() as int) + tap_terms(
            d@.taps,
            net@,
            d@.taps.len() as int,
        ),
{
    let mut r: Vec<Term> = Vec::new();
    let mut i: usize = 0;
    while i < d.signals.len()
        invariant
            i <= d.signals@.len(),
            r@ == sig_terms(d@.signals, net@, i as int),
        decreases d.signals@.len() - i,
    {
        let s = &d.signals[i];
        assert(d@.signals[i as int] == s@);
        if same(s.net.as_str(), net) {
            r.push((s.at, Some(s.dir)));
        }
        i += 1;
    }
    let ghost a = r@;
    let mut j: usize = 0;
    while j < d.taps.len()
        invariant
            j <= d.taps@.len(),
            r@ == a + tap_terms(d@.taps, net@, j as int),
        decreases d.taps@.len() - j,
    {
        let t = &d.taps[j];
        assert(d@.taps[j as int] == t@);
        if same(t.net.as_str(), net) {
            r.push((t.tap, None));
        }
        j += 1;
    }
    r
}

/// The points of a scene, and behind them every terminal of a draft that is still to be wired.
pub open spec fn with_pending(points: Seq<retract::Anchor>, d: DraftV) -> Seq<retract::Anchor> {
    points + Seq::new(d.signals.len(), |i: int| (d.signals[i].at, d.signals[i].net)) + Seq::new(
        d.taps.len(),
        |i: int| (d.taps[i].tap, d.taps[i].net),
    )
}

/// Puts the terminals of a draft that are still to be wired into a scene, so that a wire of one net
/// runs over no terminal of another.
pub fn add_pending(scene: &mut RouteScene, d: &Draft)
    ensures
        retract::anchors_v(final(scene).points@) == with_pending(
            retract::anchors_v(old(scene).points@),
            d@,
        ),
        final(scene).solids@ == old(scene).solids@,
        final(scene).segments@ == old(scene).segments@,
{
    let ghost p0 = retract::anchors_v(scene.points@);
    let ghost sig = Seq::new(d@.signals.len(), |i: int| (d@.signals[i].at, d@.signals[i].net));
    let ghost tap = Seq::new(d@.taps.len(), |i: int| (d@.taps[i].tap, d@.taps[i].net));
    let ghost s0 = *scene;
    let mut i: usize = 0;
    while i < d.signals.len()
        invariant
            i <= d.signals@.len(),
            sig == Seq::new(
                d@.signals.len(),
                |i: int| (d@.signals[i].at, d@.signals[i].net),
            ),
            retract::anchors_v(scene.points@) == p0 + sig.take(i as int),
            scene.solids@ == s0.solids@,
            scene.segments@ == s0.segments@,
        decreases d.signals@.len() - i,
    {
        let s = &d.signals[i];
        assert(d@.signals[i as int] == s@);
        push_anchor(&mut scene.points, s.at, s.net.as_str());
        i += 1;
        assert(retract::anchors_v(scene.points@) =~= p0 + sig.take(i as int));
    }
    let mut j: usize = 0;
    assert(sig.take(d@.signals.len() as int) =~= sig);
    while j < d.taps.len()
        invariant
            j <= d.taps@.len(),
            tap == Seq::new(d@.taps.len(), |i: int| (d@.taps[i].tap, d@.taps[i].net)),
            retract::anchors_v(scene.points@) == p0 + sig + tap.take(j as int),
            scene.solids@ == s0.solids@,
            scene.segments@ == s0.segments@,
        decreases d.taps@.len() - j,
    {
        let t = &d.taps[j];
        assert(d@.taps[j as int] == t@);
        push_anchor(&mut scene.points, t.tap, t.net.as_str());
        j += 1;
        assert(retract::anchors_v(scene.points@) =~= p0 + sig + tap.take(j as int));
    }
    assert(tap.take(d@.taps.len() as int) =~= tap);
}

} // verus!
