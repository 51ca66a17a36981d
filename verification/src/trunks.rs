//! A net drawn as a trunk: every pin reaches the trunk, nothing enters a part, and no trunk that
//! was tried costs less.
use crate::geom;
use crate::geom::Pt;
use crate::group;
use crate::group::{DrawnV, End, FieldV, Frame, LegV};
use crate::router;
use vstd::prelude::*;

verus! {

/// The place of a pin along a trunk, in cells.
pub open spec fn along(e: End, horizontal: bool) -> int {
    let c = router::cell_of_spec(e.pos);
    if horizontal {
        c.x as int
    } else {
        c.y as int
    }
}

/// The line of a pin beside a trunk, in cells.
pub open spec fn across(e: End, horizontal: bool) -> int {
    let c = router::cell_of_spec(e.pos);
    if horizontal {
        c.y as int
    } else {
        c.x as int
    }
}

/// Whether no part but one stands in the way between two points.
pub open spec fn free_way(fl: FieldV, u: Pt, v: Pt, own: int) -> bool {
    forall|i: int|
        0 <= i < fl.boxes.len() && (#[trigger] fl.boxes[i]).0 != own ==> !geom::hits(
            u,
            v,
            fl.boxes[i].1,
            38_100,
        )
}

/// Whether a wire leads from a pin to a place of a trunk: straight, or round one bend at the height
/// of the pin, and through no part but the pin's own, which only its first stretch may touch.
pub open spec fn leads_to(
    fl: FieldV,
    e: End,
    w: Seq<Pt>,
    t: int,
    horizontal: bool,
    place: int,
) -> bool {
    let u = group::trunk_pt(horizontal, along(e, horizontal), across(e, horizontal));
    let v = group::trunk_pt(horizontal, place, across(e, horizontal));
    let z = group::trunk_pt(horizontal, place, t);
    ||| w == seq![u, z] && place == along(e, horizontal) && free_way(fl, u, z, e.p as int)
    ||| w == seq![u, v, z] && free_way(fl, u, v, e.p as int) && free_way(fl, v, z, -1)
}

/// Whether a pin reaches a trunk at a place: its tip is there, or one of some wires leads there.
pub open spec fn reaches(
    fl: FieldV,
    e: End,
    ws: Seq<Seq<Pt>>,
    t: int,
    horizontal: bool,
    place: int,
) -> bool {
    ||| across(e, horizontal) == t && along(e, horizontal) == place
    ||| exists|i: int| 0 <= i < ws.len() && leads_to(fl, e, #[trigger] ws[i], t, horizontal, place)
}

proof fn lemma_leg(fl: FieldV, e: End, t: int, horizontal: bool)
    ensures
        match group::leg_spec(fl, e, t, horizontal) {
            LegV::Blocked => true,
            LegV::On(a) => across(e, horizontal) == t && along(e, horizontal) == a,
            LegV::Wire(w, c, a) => leads_to(fl, e, w, t, horizontal, a),
        },
{
    let m = along(e, horizontal) + 2 * (if horizontal {
        e.d.0 as int
    } else {
        e.d.1 as int
    });
    let u = group::trunk_pt(horizontal, along(e, horizontal), across(e, horizontal));
    let s = group::trunk_pt(horizontal, along(e, horizontal), t);
    let v = group::trunk_pt(horizontal, m, across(e, horizontal));
    let z = group::trunk_pt(horizontal, m, t);
    lemma_free(fl, u, s, e.p as int);
    lemma_free(fl, u, v, e.p as int);
    lemma_free(fl, v, z, -1);
}

proof fn lemma_free(fl: FieldV, u: Pt, v: Pt, own: int)
    ensures
        group::clear_spec(fl, u, v, own) is Some <==> free_way(fl, u, v, own),
{
    if free_way(fl, u, v, own) && group::runs_into(fl, u, v, own) {
        let i = choose|i: int|
            0 <= i < fl.boxes.len() && (#[trigger] fl.boxes[i]).0 != own && geom::hits(
                u,
                v,
                fl.boxes[i].1,
                38_100,
            );
        assert(fl.boxes[i].0 != own);
    }
}

proof fn lemma_more_wires(
    fl: FieldV,
    e: End,
    ws: Seq<Seq<Pt>>,
    w: Seq<Pt>,
    t: int,
    horizontal: bool,
    place: int,
)
    requires
        reaches(fl, e, ws, t, horizontal, place),
    ensures
        reaches(fl, e, ws.push(w), t, horizontal, place),
{
    if !(across(e, horizontal) == t && along(e, horizontal) == place) {
        let i = choose|i: int|
            0 <= i < ws.len() && leads_to(fl, e, #[trigger] ws[i], t, horizontal, place);
        assert(ws.push(w)[i] == ws[i]);
    }
}

proof fn lemma_legs(fl: FieldV, ends: Seq<End>, t: int, horizontal: bool, n: int)
    requires
        0 <= n <= ends.len(),
    ensures
        group::legs_spec(fl, ends, t, horizontal, n) is Some ==> ({
            let r = group::legs_spec(fl, ends, t, horizontal, n)->0;
            &&& r.2.len() == n
            &&& forall|i: int|
                0 <= i < n ==> reaches(fl, #[trigger] ends[i], r.0, t, horizontal, r.2[i])
        }),
    decreases n,
{
    if n > 0 {
        lemma_legs(fl, ends, t, horizontal, n - 1);
        lemma_leg(fl, ends[n - 1], t, horizontal);
        let a = group::legs_spec(fl, ends, t, horizontal, n - 1);
        let b = group::legs_spec(fl, ends, t, horizontal, n);
        if b is Some {
            let (x, y) = (a->0, b->0);
            assert forall|i: int| 0 <= i < n implies reaches(
                fl,
                #[trigger] ends[i],
                y.0,
                t,
                horizontal,
                y.2[i],
            ) by {
                match group::leg_spec(fl, ends[n - 1], t, horizontal) {
                    LegV::Wire(w, c, p) => {
                        if i < n - 1 {
                            assert(y.2[i] == x.2[i]);
                            lemma_more_wires(fl, ends[i], x.0, w, t, horizontal, x.2[i]);
                        } else {
                            assert(y.0[x.0.len() as int] == w);
                            assert(leads_to(fl, ends[i], y.0[x.0.len() as int], t, horizontal, p));
                        }
                    },
                    _ => {
                        if i < n - 1 {
                            assert(y.2[i] == x.2[i]);
                        }
                    },
                }
            }
        }
    }
}

proof fn lemma_span(v: Seq<int>, i: int)
    requires
        0 <= i < v.len(),
    ensures
        group::least(v) <= v[i] <= group::greatest(v),
    decreases v.len(),
{
    if v.len() > 1 {
        if i < v.len() - 1 {
            lemma_span(v.drop_last(), i);
            assert(v.drop_last()[i] == v[i]);
        }
    }
}

/// Whether a pin reaches a trunk at a place between two others.
pub open spec fn reaches_within(
    fl: FieldV,
    e: End,
    ws: Seq<Seq<Pt>>,
    t: int,
    horizontal: bool,
    a: int,
    b: int,
) -> bool {
    exists|p: int| a <= p <= b && #[trigger] reaches(fl, e, ws, t, horizontal, p)
}

/// Whether wires are a trunk on a line for some pins: each pin reaches it at a place between two
/// others, and where these differ a wire through no part joins them.
pub open spec fn is_trunk(
    fl: FieldV,
    ends: Seq<End>,
    ws: Seq<Seq<Pt>>,
    t: int,
    horizontal: bool,
    a: int,
    b: int,
) -> bool {
    &&& forall|i: int|
        0 <= i < ends.len() ==> reaches_within(fl, #[trigger] ends[i], ws, t, horizontal, a, b)
    &&& a < b ==> ws.contains(
        seq![group::trunk_pt(horizontal, a, t), group::trunk_pt(horizontal, b, t)],
    ) && free_way(fl, group::trunk_pt(horizontal, a, t), group::trunk_pt(horizontal, b, t), -1)
}

/// Whether wires are a trunk somewhere.
pub open spec fn some_trunk(fl: FieldV, ends: Seq<End>, ws: Seq<Seq<Pt>>) -> bool {
    exists|t: int, horizontal: bool, a: int, b: int| #[trigger]
        is_trunk(fl, ends, ws, t, horizontal, a, b)
}

proof fn lemma_trunk(fl: FieldV, ends: Seq<End>, t: int, horizontal: bool)
    ensures
        group::trunk_spec(fl, ends, t, horizontal) is Some ==> some_trunk(
            fl,
            ends,
            wires_in(group::trunk_spec(fl, ends, t, horizontal)),
        ),
{
    if group::trunk_spec(fl, ends, t, horizontal) is Some {
        lemma_legs(fl, ends, t, horizontal, ends.len() as int);
        let r = group::legs_spec(fl, ends, t, horizontal, ends.len() as int)->0;
        let ws = wires_in(group::trunk_spec(fl, ends, t, horizontal));
        let (a, b) = (group::least(r.2), group::greatest(r.2));
        let (u, v) = (
            group::trunk_pt(horizontal, a, t),
            group::trunk_pt(horizontal, b, t),
        );
        lemma_free(fl, u, v, -1);
        assert forall|i: int| 0 <= i < ends.len() implies reaches_within(
            fl,
            #[trigger] ends[i],
            ws,
            t,
            horizontal,
            a,
            b,
        ) by {
            lemma_span(r.2, i);
            let p = r.2[i];
            assert(reaches(fl, ends[i], r.0, t, horizontal, p));
            if b - a > 0 {
                lemma_more_wires(fl, ends[i], r.0, seq![u, v], t, horizontal, p);
            }
            assert(reaches(fl, ends[i], ws, t, horizontal, p));
        }
        if a < b {
            assert(ws[r.0.len() as int] == seq![u, v]);
        }
        assert(is_trunk(fl, ends, ws, t, horizontal, a, b));
    }
}

/// The wires of a trunk, none where there is no trunk.
pub open spec fn wires_in(x: Option<(Seq<Seq<Pt>>, int)>) -> Seq<Seq<Pt>> {
    match x {
        Some((w, c)) => w,
        None => Seq::empty(),
    }
}

/// The cost of a trunk.
pub open spec fn cost_in(x: Option<(Seq<Seq<Pt>>, int)>) -> int {
    match x {
        Some((w, c)) => c,
        None => 0,
    }
}

/// Whether wires and their cost are those of a trunk on a line that is tried.
pub open spec fn tried(
    fl: FieldV,
    ends: Seq<End>,
    horizontal: bool,
    i: int,
    ws: Seq<Seq<Pt>>,
    cost: int,
) -> bool {
    let lines = group::trunk_lines(ends, horizontal);
    0 <= i < lines.len() && group::trunk_spec(fl, ends, lines[i] as int, horizontal) == Some(
        (ws, cost),
    )
}

/// Whether wires at a cost are a trunk on a line that is tried.
pub open spec fn some_tried(fl: FieldV, ends: Seq<End>, ws: Seq<Seq<Pt>>, cost: int) -> bool {
    exists|h: bool, i: int| #[trigger] tried(fl, ends, h, i, ws, cost)
}

proof fn lemma_best(
    fl: FieldV,
    ends: Seq<End>,
    horizontal: bool,
    n: int,
    best: Option<(Seq<Seq<Pt>>, int)>,
)
    requires
        0 <= n <= group::trunk_lines(ends, horizontal).len(),
        best is Some ==> some_tried(fl, ends, wires_in(best), cost_in(best)),
    ensures
        ({
            let lines = group::trunk_lines(ends, horizontal);
            let r = group::best_trunk(fl, ends, lines, horizontal, n, best);
            &&& r is Some ==> some_tried(fl, ends, wires_in(r), cost_in(r))
            &&& best is Some ==> r is Some && cost_in(r) <= cost_in(best)
            &&& forall|i: int, ws: Seq<Seq<Pt>>, c: int|
                i < n && #[trigger] tried(fl, ends, horizontal, i, ws, c) ==> r is Some && cost_in(r)
                    <= c
        }),
    decreases n,
{
    if n > 0 {
        lemma_best(fl, ends, horizontal, n - 1, best);
        let lines = group::trunk_lines(ends, horizontal);
        let x = group::trunk_spec(fl, ends, lines[n - 1] as int, horizontal);
        if x is Some {
            let (ws, c) = x->0;
            assert(tried(fl, ends, horizontal, n - 1, ws, c));
        }
    }
}

/// The trunk that is drawn for a net joins all its pins and enters no part; it costs no more than
/// any other on a line that is tried, and one is drawn wherever there is one.
pub proof fn a_trunk_joins_all_pins_at_least_cost(f: Frame, st: DrawnV, ends: Seq<End>)
    ensures
        ({
            let fl = group::field_of(f, st);
            let r = group::route_trunk_spec(f, st, ends);
            &&& r is Some ==> some_trunk(fl, ends, r->0)
            &&& r is Some ==> exists|cost: int|
                some_tried(fl, ends, r->0, cost) && forall|h: bool, i: int, ws: Seq<Seq<Pt>>, c: int|
                    #[trigger] tried(fl, ends, h, i, ws, c) ==> cost <= c
            &&& r is None ==> forall|h: bool, i: int, ws: Seq<Seq<Pt>>, c: int|
                !#[trigger] tried(fl, ends, h, i, ws, c)
        }),
{
    let fl = group::field_of(f, st);
    let h = group::trunk_lines(ends, true);
    let v = group::trunk_lines(ends, false);
    let a = group::best_trunk(fl, ends, h, true, h.len() as int, None);
    let b = group::best_trunk(fl, ends, v, false, v.len() as int, a);
    lemma_best(fl, ends, true, h.len() as int, None);
    lemma_best(fl, ends, false, v.len() as int, a);
    let r = group::route_trunk_spec(f, st, ends);
    assert forall|g: bool, i: int, ws: Seq<Seq<Pt>>, c: int| #[trigger]
        tried(fl, ends, g, i, ws, c) implies b is Some && cost_in(b) <= c by {
        if g {
            assert(i < h.len() && tried(fl, ends, true, i, ws, c));
        } else {
            assert(i < v.len() && tried(fl, ends, false, i, ws, c));
        }
    }
    if r is Some {
        let cost = cost_in(b);
        assert(some_tried(fl, ends, r->0, cost));
        let (g, i) = choose|g: bool, i: int| #[trigger] tried(fl, ends, g, i, r->0, cost);
        lemma_trunk(fl, ends, group::trunk_lines(ends, g)[i] as int, g);
    }
}

} // verus!
