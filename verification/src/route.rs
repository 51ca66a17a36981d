//! Elbow routes: axis-parallel wires between the terminals of a net, and what they must not touch.
use crate::emit;
use crate::emit::{point_on_segment, Dir};
use crate::flex::cut_wide;
use crate::geom;
use crate::geom::{max_i, min_i, BBox, Pt};
use crate::orient;
use crate::retract;
use crate::text::same;
use vstd::prelude::*;

verus! {

/// A path of axis-parallel segments.
pub type Path = Vec<Pt>;

/// The least length of the lead out of a pin before the first turn.
pub const LEAD: i64 = 254_000;

/// The first `n` points without repetitions.
pub open spec fn distinct_run(p: Seq<Pt>, n: int) -> Seq<Pt>
    decreases n,
{
    if n <= 0 {
        Seq::empty()
    } else {
        let rest = distinct_run(p, n - 1);
        if rest.len() > 0 && rest.last() == p[n - 1] {
            rest
        } else {
            rest.push(p[n - 1])
        }
    }
}

/// Whether three points go straight on in one line; turning back is not going on.
pub open spec fn in_line(a: Pt, b: Pt, c: Pt) -> bool {
    ||| a.x == b.x && b.x == c.x && (a.y <= b.y <= c.y || a.y >= b.y >= c.y)
    ||| a.y == b.y && b.y == c.y && (a.x <= b.x <= c.x || a.x >= b.x >= c.x)
}

fn goes_on(a: Pt, b: Pt, c: Pt) -> (r: bool)
    ensures
        r == in_line(a, b, c),
{
    (a.x == b.x && b.x == c.x && ((a.y <= b.y && b.y <= c.y) || (a.y >= b.y && b.y >= c.y))) || (a.y
        == b.y && b.y == c.y && ((a.x <= b.x && b.x <= c.x) || (a.x >= b.x && b.x >= c.x)))
}

/// The first `n` points with runs in one line merged.
pub open spec fn merged(p: Seq<Pt>, n: int) -> Seq<Pt>
    decreases n,
{
    if n <= 0 {
        Seq::empty()
    } else {
        let out = merged(p, n - 1);
        if out.len() >= 2 && in_line(out[out.len() - 2], out.last(), p[n - 1]) {
            out.drop_last().push(p[n - 1])
        } else {
            out.push(p[n - 1])
        }
    }
}

pub open spec fn simplified(p: Seq<Pt>) -> Seq<Pt> {
    let d = distinct_run(p, p.len() as int);
    merged(d, d.len() as int)
}

/// Drops segments without length and merges runs in one line.
pub fn simplify(path: &Path) -> (r: Path)
    ensures
        r@ == simplified(path@),
{
    let mut d: Vec<Pt> = Vec::new();
    let mut i: usize = 0;
    while i < path.len()
        invariant
            i <= path@.len(),
            d@ == distinct_run(path@, i as int),
        decreases path@.len() - i,
    {
        let n = d.len();
        if !(n > 0 && d[n - 1].x == path[i].x && d[n - 1].y == path[i].y) {
            d.push(path[i]);
        }
        i += 1;
    }
    let mut out: Vec<Pt> = Vec::new();
    i = 0;
    while i < d.len()
        invariant
            i <= d@.len(),
            d@ == distinct_run(path@, path@.len() as int),
            out@ == merged(d@, i as int),
        decreases d@.len() - i,
    {
        let n = out.len();
        let p = d[i];
        if n >= 2 {
            let a = out[n - 2];
            let b = out[n - 1];
            if goes_on(a, b, p) {
                let ghost o = out@;
                out.set(n - 1, p);
                assert(out@ =~= o.drop_last().push(p));
            } else {
                out.push(p);
            }
        } else {
            out.push(p);
        }
        i += 1;
    }
    out
}

/// Whether a target is ahead of a lead.
pub open spec fn ahead(d: Dir, lead: Pt, b: Pt) -> bool {
    match d {
        Dir::East => b.x >= lead.x,
        Dir::West => b.x <= lead.x,
        Dir::North => b.y <= lead.y,
        Dir::South => b.y >= lead.y,
    }
}

pub open spec fn lead_of(a: Pt, d: Dir) -> Pt {
    Pt { x: orient::cut(a.x + d.dx() * LEAD), y: orient::cut(a.y + d.dy() * LEAD) }
}

/// The points of an elbow before it is simplified: straight on and one turn where the target is
/// ahead, else out, across and back.
pub open spec fn bends(a: Pt, d: Dir, b: Pt) -> Seq<Pt> {
    let lead = lead_of(a, d);
    let flat = d == Dir::East || d == Dir::West;
    if ahead(d, lead, b) {
        seq![
            a,
            if flat {
                Pt { x: b.x, y: a.y }
            } else {
                Pt { x: a.x, y: b.y }
            },
            b,
        ]
    } else {
        seq![
            a,
            lead,
            if flat {
                Pt { x: lead.x, y: b.y }
            } else {
                Pt { x: b.x, y: lead.y }
            },
            b,
        ]
    }
}

pub open spec fn elbow_spec(a: Pt, d: Dir, b: Pt) -> Seq<Pt> {
    simplified(bends(a, d, b))
}

/// An elbow from a pin, leaving along its direction for at least the lead, to a point.
pub fn elbow(a: Pt, d: Dir, b: Pt) -> (r: Path)
    ensures
        r@ == elbow_spec(a, d, b),
{
    let v = d.vec();
    let lead = Pt {
        x: cut_wide(a.x as i128 + (v.0 * LEAD) as i128),
        y: cut_wide(a.y as i128 + (v.1 * LEAD) as i128),
    };
    let flat = d == Dir::East || d == Dir::West;
    let on = match d {
        Dir::East => b.x >= lead.x,
        Dir::West => b.x <= lead.x,
        Dir::North => b.y <= lead.y,
        Dir::South => b.y >= lead.y,
    };
    let mut p: Path = Vec::new();
    p.push(a);
    if on {
        p.push(if flat { Pt { x: b.x, y: a.y } } else { Pt { x: a.x, y: b.y } });
    } else {
        p.push(lead);
        p.push(if flat { Pt { x: lead.x, y: b.y } } else { Pt { x: b.x, y: lead.y } });
    }
    p.push(b);
    assert(p@ =~= bends(a, d, b));
    simplify(&p)
}

/// What wires must keep clear of.
#[derive(Debug)]
pub struct RouteScene {
    /// Symbol bodies.
    pub solids: Vec<BBox>,
    /// Points with their nets.
    pub points: Vec<(Pt, String)>,
    /// Wires with their nets.
    pub segments: Vec<(Pt, Pt, String)>,
}

/// Whether a segment passes through a body; running along its edge is not passing through.
pub open spec fn enters(a: Pt, b: Pt, r: BBox) -> bool {
    &&& geom::lo(a.x as int, b.x as int) < r.x1
    &&& r.x0 < geom::hi(a.x as int, b.x as int)
    &&& geom::lo(a.y as int, b.y as int) < r.y1
    &&& r.y0 < geom::hi(a.y as int, b.y as int)
}

pub fn seg_hits_rect(a: Pt, b: Pt, r: &BBox) -> (h: bool)
    ensures
        h == enters(a, b, *r),
{
    min_i(a.x, b.x) < r.x1 && r.x0 < max_i(a.x, b.x) && min_i(a.y, b.y) < r.y1 && r.y0 < max_i(
        a.y,
        b.y,
    )
}

pub open spec fn spans_touch(a: i64, b: i64, c: i64, d: i64) -> bool {
    &&& geom::lo(a as int, b as int) <= geom::hi(c as int, d as int)
    &&& geom::lo(c as int, d as int) <= geom::hi(a as int, b as int)
}

/// Whether two segments join: they share part of a line, or one ends on the other. Crossing is not
/// joining.
pub open spec fn join(a1: Pt, a2: Pt, b1: Pt, b2: Pt) -> bool {
    let ah = a1.y == a2.y;
    let bh = b1.y == b2.y;
    if ah && bh {
        a1.y == b1.y && spans_touch(a1.x, a2.x, b1.x, b2.x)
    } else if !ah && !bh {
        a1.x == b1.x && spans_touch(a1.y, a2.y, b1.y, b2.y)
    } else {
        let (h1, h2, v1, v2) = if ah {
            (a1, a2, b1, b2)
        } else {
            (b1, b2, a1, a2)
        };
        let p = Pt { x: v1.x, y: h1.y };
        emit::on_line(p, h1, h2) && emit::on_line(p, v1, v2) && (p == h1 || p == h2 || p == v1 || p
            == v2)
    }
}

fn do_touch(a: i64, b: i64, c: i64, d: i64) -> (r: bool)
    ensures
        r == spans_touch(a, b, c, d),
{
    min_i(a, b) <= max_i(c, d) && min_i(c, d) <= max_i(a, b)
}

/// Whether two segments join.
pub fn segments_conflict(a1: Pt, a2: Pt, b1: Pt, b2: Pt) -> (r: bool)
    ensures
        r == join(a1, a2, b1, b2),
{
    let ah = a1.y == a2.y;
    let bh = b1.y == b2.y;
    if ah && bh {
        a1.y == b1.y && do_touch(a1.x, a2.x, b1.x, b2.x)
    } else if !ah && !bh {
        a1.x == b1.x && do_touch(a1.y, a2.y, b1.y, b2.y)
    } else {
        let (h1, h2, v1, v2) = if ah { (a1, a2, b1, b2) } else { (b1, b2, a1, a2) };
        let p = Pt { x: v1.x, y: h1.y };
        point_on_segment(p, h1, h2) && point_on_segment(p, v1, v2) && (p == h1 || p == h2 || p
            == v1 || p == v2)
    }
}

/// Whether a segment can be drawn for a net: through no body, over no point and joining no wire of
/// another net.
pub open spec fn free(
    a: Pt,
    b: Pt,
    net: Seq<char>,
    solids: Seq<BBox>,
    pts: Seq<retract::Anchor>,
    runs: Seq<retract::Run>,
) -> bool {
    &&& forall|i: int| 0 <= i < solids.len() ==> !enters(a, b, #[trigger] solids[i])
    &&& forall|i: int|
        0 <= i < pts.len() ==> (#[trigger] pts[i]).1 == net || !emit::on_line(pts[i].0, a, b)
    &&& forall|i: int|
        0 <= i < runs.len() ==> (#[trigger] runs[i]).2 == net || !join(a, b, runs[i].0, runs[i].1)
}

/// Whether a path can be drawn for a net.
pub open spec fn clear_path(
    p: Seq<Pt>,
    net: Seq<char>,
    solids: Seq<BBox>,
    pts: Seq<retract::Anchor>,
    runs: Seq<retract::Run>,
) -> bool {
    forall|i: int|
        0 <= i < p.len() - 1 ==> free(#[trigger] p[i], p[i + 1], net, solids, pts, runs)
}

fn is_free(a: Pt, b: Pt, net: &str, scene: &RouteScene) -> (r: bool)
    ensures
        r == free(
            a,
            b,
            net@,
            scene.solids@,
            retract::anchors_v(scene.points@),
            retract::runs_v(scene.segments@),
        ),
{
    let ghost pv = retract::anchors_v(scene.points@);
    let ghost rv = retract::runs_v(scene.segments@);
    let mut i: usize = 0;
    while i < scene.solids.len()
        invariant
            i <= scene.solids@.len(),
            forall|k: int| 0 <= k < i ==> !enters(a, b, #[trigger] scene.solids@[k]),
        decreases scene.solids@.len() - i,
    {
        if seg_hits_rect(a, b, &scene.solids[i]) {
            assert(enters(a, b, scene.solids@[i as int]));
            return false;
        }
        i += 1;
    }
    i = 0;
    while i < scene.points.len()
        invariant
            i <= scene.points@.len(),
            pv == retract::anchors_v(scene.points@),
            forall|k: int|
                0 <= k < i ==> (#[trigger] pv[k]).1 == net@ || !emit::on_line(pv[k].0, a, b),
        decreases scene.points@.len() - i,
    {
        assert(pv[i as int] == (scene.points@[i as int].0, scene.points@[i as int].1@));
        if !same(scene.points[i].1.as_str(), net) && point_on_segment(scene.points[i].0, a, b) {
            return false;
        }
        i += 1;
    }
    i = 0;
    while i < scene.segments.len()
        invariant
            i <= scene.segments@.len(),
            rv == retract::runs_v(scene.segments@),
            forall|k: int|
                0 <= k < i ==> (#[trigger] rv[k]).2 == net@ || !join(a, b, rv[k].0, rv[k].1),
        decreases scene.segments@.len() - i,
    {
        let s = &scene.segments[i];
        assert(rv[i as int] == (s.0, s.1, s.2@));
        if !same(s.2.as_str(), net) && segments_conflict(a, b, s.0, s.1) {
            return false;
        }
        i += 1;
    }
    true
}

/// Whether a path can be drawn for a net.
pub fn path_ok(path: &Path, net: &str, scene: &RouteScene) -> (r: bool)
    ensures
        r == clear_path(
            path@,
            net@,
            scene.solids@,
            retract::anchors_v(scene.points@),
            retract::runs_v(scene.segments@),
        ),
{
    let ghost pv = retract::anchors_v(scene.points@);
    let ghost rv = retract::runs_v(scene.segments@);
    let n = path.len();
    let mut i: usize = 0;
    while i < n && n - i > 1
        invariant
            i <= n,
            n == path@.len(),
            n > 0 ==> i < n,
            pv == retract::anchors_v(scene.points@),
            rv == retract::runs_v(scene.segments@),
            forall|k: int|
                0 <= k < i ==> free(
                    #[trigger] path@[k],
                    path@[k + 1],
                    net@,
                    scene.solids@,
                    pv,
                    rv,
                ),
        decreases n - i,
    {
        if !is_free(path[i], path[i + 1], net, scene) {
            assert(!free(path@[i as int], path@[i + 1], net@, scene.solids@, pv, rv));
            return false;
        }
        i += 1;
    }
    true
}

// ---------------------------------------------------------------- laws
pub open spec fn parallel(a: Pt, b: Pt) -> bool {
    a.x == b.x || a.y == b.y
}

pub open spec fn all_parallel(p: Seq<Pt>) -> bool {
    forall|i: int| 0 <= i < p.len() - 1 ==> parallel(#[trigger] p[i], p[i + 1])
}

proof fn lemma_run(p: Seq<Pt>, n: int)
    requires
        0 < n <= p.len(),
        all_parallel(p),
    ensures
        ({
            let d = distinct_run(p, n);
            d.len() > 0 && d[0] == p[0] && d.last() == p[n - 1] && all_parallel(d)
        }),
    decreases n,
{
    if n > 1 {
        lemma_run(p, n - 1);
        let d = distinct_run(p, n - 1);
        let e = distinct_run(p, n);
        assert(parallel(p[n - 2], p[n - 1]));
        assert forall|i: int| 0 <= i < e.len() - 1 implies parallel(#[trigger] e[i], e[i + 1]) by {
            if i < d.len() - 1 {
                assert(parallel(d[i], d[i + 1]));
            }
        }
    } else {
        assert(distinct_run(p, 0).len() == 0);
    }
}

proof fn lemma_merged(p: Seq<Pt>, n: int)
    requires
        0 < n <= p.len(),
        all_parallel(p),
    ensures
        ({
            let d = merged(p, n);
            d.len() > 0 && d[0] == p[0] && d.last() == p[n - 1] && all_parallel(d)
        }),
    decreases n,
{
    if n > 1 {
        lemma_merged(p, n - 1);
        let d = merged(p, n - 1);
        let e = merged(p, n);
        assert(parallel(p[n - 2], p[n - 1]));
        assert forall|i: int| 0 <= i < e.len() - 1 implies parallel(#[trigger] e[i], e[i + 1]) by {
            if i < d.len() - 1 {
                assert(parallel(d[i], d[i + 1]));
            }
        }
    } else {
        assert(merged(p, 0).len() == 0);
    }
}

/// Every segment of an elbow is axis-parallel, and it leads from the one point to the other. (A
/// pin so far out that its lead would leave the sheet is left out.)
pub proof fn elbow_is_axis_parallel(a: Pt, d: Dir, b: Pt)
    requires
        orient::fits(a.x + d.dx() * LEAD),
        orient::fits(a.y + d.dy() * LEAD),
    ensures
        all_parallel(elbow_spec(a, d, b)),
        elbow_spec(a, d, b).len() > 0,
        elbow_spec(a, d, b)[0] == a,
        elbow_spec(a, d, b).last() == b,
{
    let p = bends(a, d, b);
    assert(all_parallel(p));
    lemma_run(p, p.len() as int);
    let q = distinct_run(p, p.len() as int);
    lemma_merged(q, q.len() as int);
}

/// Whether a point lies at least the lead ahead of another one, straight along a direction.
pub open spec fn leads(a: Pt, d: Dir, p: Pt) -> bool {
    match d {
        Dir::East => p.y == a.y && p.x >= a.x + LEAD,
        Dir::West => p.y == a.y && p.x <= a.x - LEAD,
        Dir::North => p.x == a.x && p.y <= a.y - LEAD,
        Dir::South => p.x == a.x && p.y >= a.y + LEAD,
    }
}

/// An elbow leaves a pin along its direction for at least the lead, wherever it leads to. (A pin
/// so far out that its lead would leave the sheet is left out.)
pub proof fn elbow_leaves_along_its_direction(a: Pt, d: Dir, b: Pt)
    requires
        orient::fits(a.x + d.dx() * LEAD),
        orient::fits(a.y + d.dy() * LEAD),
    ensures
        elbow_spec(a, d, b).len() >= 2,
        leads(a, d, elbow_spec(a, d, b)[1]),
{
    let p = bends(a, d, b);
    reveal_with_fuel(distinct_run, 5);
    reveal_with_fuel(merged, 5);
    let q = distinct_run(p, p.len() as int);
    assert(p[0] == a);
    assert(leads(a, d, p[1]));
    assert(p.len() == 3 || p.len() == 4);
    assert(distinct_run(p, 1) =~= seq![p[0]]);
    assert(distinct_run(p, 2) =~= seq![p[0], p[1]]);
    lemma_run_keeps(p, p.len() as int);
    lemma_merge_keeps(q, a, d, q.len() as int);
}

proof fn lemma_run_keeps(p: Seq<Pt>, n: int)
    requires
        2 <= n <= p.len(),
        p[0] != p[1],
    ensures
        distinct_run(p, n).len() >= 2,
        distinct_run(p, n)[0] == p[0],
        distinct_run(p, n)[1] == p[1],
    decreases n,
{
    reveal_with_fuel(distinct_run, 3);
    if n > 2 {
        lemma_run_keeps(p, n - 1);
    }
}

proof fn lemma_merge_keeps(q: Seq<Pt>, a: Pt, d: Dir, n: int)
    requires
        2 <= n <= q.len(),
        q[0] == a,
        leads(a, d, q[1]),
    ensures
        merged(q, n).len() >= 2,
        merged(q, n)[0] == a,
        leads(a, d, merged(q, n)[1]),
    decreases n,
{
    reveal_with_fuel(merged, 3);
    if n > 2 {
        lemma_merge_keeps(q, a, d, n - 1);
    }
}

/// A path that is clear for a net stays clear when a wire of the same net is drawn.
pub proof fn own_wires_are_no_obstacles(
    p: Seq<Pt>,
    net: Seq<char>,
    solids: Seq<BBox>,
    pts: Seq<retract::Anchor>,
    runs: Seq<retract::Run>,
    a: Pt,
    b: Pt,
)
    requires
        clear_path(p, net, solids, pts, runs),
    ensures
        clear_path(p, net, solids, pts, runs.push((a, b, net))),
{
    assert forall|i: int| 0 <= i < p.len() - 1 implies free(
        #[trigger] p[i],
        p[i + 1],
        net,
        solids,
        pts,
        runs.push((a, b, net)),
    ) by {
        assert(free(p[i], p[i + 1], net, solids, pts, runs));
        assert forall|k: int| 0 <= k < runs.push((a, b, net)).len() implies (#[trigger] runs.push(
            (a, b, net),
        )[k]).2 == net || !join(
            p[i],
            p[i + 1],
            runs.push((a, b, net))[k].0,
            runs.push((a, b, net))[k].1,
        ) by {
            if k < runs.len() {
                assert(runs.push((a, b, net))[k] == runs[k]);
            }
        }
    }
}

} // verus!
