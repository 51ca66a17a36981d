//! Drawing of a routed group: parts, wires, pin connections, power symbols and PWR_FLAGs.
use crate::engine;
use crate::engine::PartInst;
use crate::geo;
use crate::geo::{
    dup_fields, extent, flag_at_symbol_clear, flag_at_symbol_get, flag_at_symbol_set, is_gnd, Geo,
    GeoV, LayoutError, PartOpts, Session,
};
use crate::geom;
use crate::geom::{
    abs_i, covers, floor_div, max_i, min_i, overlap, seg_hits_box, BBox, Dir, Pt, GRID,
};
use crate::group;
use crate::group::{has_key, outward, push_segs, Drawn, DrawnV, End, Frame};
use crate::layout;
use crate::layout::GroupLayout;
use crate::order;
use crate::order::order_by_key;
use crate::order_map;
use crate::pins;
use crate::pins::{connect_pins, put_power, InkV, PinSpec, PinWishes, PinsCtx, SpecV};
use crate::router;
use crate::symlib;
use crate::symlib::{SymbolIndex, SymbolInfo, TEXT_MAX};
use crate::text;
use crate::text::same;
use vstd::prelude::*;

verus! {

/// The nets among the first `n` flagged ones that want their flag beside a power symbol: grounds,
/// and nets without a wire.
pub open spec fn start_flags(f: Frame, st: DrawnV, n: int) -> Seq<(Seq<char>, bool)>
    decreases n,
{
    if n <= 0 {
        Seq::empty()
    } else {
        let before = start_flags(f, st, n - 1);
        let net = f.flags@[n - 1]@;
        if geo::gnd_spec(net) || group::wires_of(st, net).len() == 0 {
            order_map::put(before, net, false)
        } else {
            before
        }
    }
}

pub open spec fn opts_of(p: PartInst) -> PartOpts {
    PartOpts {
        rot: p.rot,
        value: p.value,
        footprint: p.footprint,
        fields: p.fields,
        mirror: p.mirror,
        unit: p.unit,
        dnp: false,
    }
}

/// The drawing with a part, whose box is its extent with text room.
pub open spec fn with_instance(g: GeoV, p: PartInst, sym: SymbolInfo) -> GeoV {
    let h = geo::with_part(g, p.id@, p.lib@, p.at, opts_of(p), sym);
    GeoV {
        boxes: g.boxes.push(engine::extent_spec(p, p.at, p.rot as int, p.flip(), false)),
        ..h
    }
}

/// The drawing with the first `n` parts; an unknown symbol stops it.
pub open spec fn with_instances(f: Frame, s: Session, index: SymbolIndex, g: GeoV, n: int) -> (
    GeoV,
    Option<Seq<char>>,
)
    decreases n,
{
    if n <= 0 {
        (g, None)
    } else {
        let before = with_instances(f, s, index, g, n - 1);
        let p = f.parts@[n - 1];
        match (before.1, geo::info_spec(s, index, p.lib@)) {
            (Some(_), _) => before,
            (None, Some(sym)) => (with_instance(before.0, p, *sym), None),
            (None, None) => (before.0, Some(geo::unknown_symbol(p.lib@))),
        }
    }
}

pub open spec fn pin_net(p: PartInst, k: int) -> Seq<char> {
    match p.net_spec(p.pins@[k].number@) {
        Some(n) => n,
        None => "nc"@,
    }
}

pub open spec fn rail_wish(net: Seq<char>) -> SpecV {
    SpecV::Detail(
        pins::DetailV {
            nc: false,
            power: Some(net),
            net: None,
            label: None,
            stub: None,
            kind: None,
            shape: None,
            shown: Seq::empty(),
        },
    )
}

pub open spec fn net_wish(net: Seq<char>) -> SpecV {
    SpecV::Detail(
        pins::DetailV {
            nc: false,
            power: None,
            net: Some(net),
            label: None,
            stub: None,
            kind: None,
            shape: None,
            shown: Seq::empty(),
        },
    )
}

/// What is to be drawn at a pin that carries no power symbol of its own.
pub open spec fn wish_for(f: Frame, st: DrawnV, p: PartInst, k: int) -> SpecV {
    let key = (p.id@, p.pins@[k].number@);
    let net = pin_net(p, k);
    if st.labelled.contains(key) {
        SpecV::Word("labelled"@)
    } else if st.wired.contains(key) {
        SpecV::Word("wired"@)
    } else if net == "nc"@ || net.len() == 0 {
        SpecV::Word("nc"@)
    } else if net == "float"@ {
        SpecV::Word("float"@)
    } else if f.nets.has(net) && !f.signal_nets.has(net) {
        rail_wish(net)
    } else {
        net_wish(net)
    }
}

/// Some segment covers `p`-`q`.
pub open spec fn covered(segs: Seq<(Pt, Pt)>, p: Pt, q: Pt) -> bool {
    exists|k: int|
        0 <= k < segs.len() && geom::covers_spec((#[trigger] segs[k]).0, segs[k].1, p, q)
}

pub open spec fn segs_of_all(st: DrawnV) -> Seq<(Pt, Pt)> {
    group::all_segs(st.wires, st.wires.len() as int)
}

/// A power symbol on a branch of a wired pin's stub.
pub open spec fn branch_symbol(st: DrawnV, g: GeoV, pos: Pt, d: Dir, net: Seq<char>) -> GeoV {
    let mid = geom::step(pos, d, 254_000);
    let g1 = if covered(segs_of_all(st), pos, mid) {
        g
    } else {
        g.with_wire(seq![pos, mid])
    };
    let up = if d.1 == 0 {
        -1int
    } else {
        d.1 as int
    };
    let far = Pt { x: mid.x, y: (mid.y + up * 254_000) as i64 };
    g1.with_wire(seq![mid, far]).with_power(
        net,
        far,
        if up == -1 {
            0
        } else {
            180
        },
    )
}

/// The wishes gathered at the first pins of a part, and the pins already done.
pub struct AtPartV {
    pub g: GeoV,
    pub wishes: Seq<(Seq<char>, SpecV)>,
    pub skip: Seq<Seq<char>>,
}

pub open spec fn at_pins(f: Frame, st: DrawnV, g: GeoV, p: PartInst, k: int) -> AtPartV
    decreases k,
{
    if k <= 0 {
        AtPartV { g, wishes: Seq::empty(), skip: Seq::empty() }
    } else {
        let a = at_pins(f, st, g, p, k - 1);
        let pin = p.pins@[k - 1];
        if st.power_pins.contains((p.id@, pin.number@)) {
            AtPartV {
                g: branch_symbol(st, a.g, p.pos_spec(pin), p.dir_spec(pin), pin_net(p, k - 1)),
                skip: a.skip.push(pin.number@),
                ..a
            }
        } else {
            AtPartV {
                wishes: order_map::put(a.wishes, pin.number@, wish_for(f, st, p, k - 1)),
                ..a
            }
        }
    }
}

/// What is drawn at the pins of one part.
pub open spec fn part_pins(f: Frame, st: DrawnV, ink: InkV, p: PartInst) -> (InkV, Option<Seq<char>>) {
    let a = at_pins(f, st, ink.g, p, p.pins@.len() as int);
    let all = p.info.unit_spec(p.unit as int).pins@;
    pins::connect_spec(
        PinsCtx {
            pins: engine::visible(all),
            wishes: a.wishes,
            default: SpecV::Word("nc"@),
            skip: a.skip,
            at: p.at,
            rot: p.rot as int,
            flip: p.flip(),
        },
        all,
        p.info.lib_id@,
        p.info.ref_prefix@ == "J"@,
        InkV { g: a.g, ..ink },
    )
}

pub open spec fn part_rank(p: PartInst) -> (i64, i64, i64) {
    if p.is_connector {
        (0, 0, 0)
    } else {
        (1, 0, 0)
    }
}

/// The parts in the order in which their pins are drawn: connectors first.
pub open spec fn pin_order(f: Frame) -> Seq<int> {
    order::by_key(Seq::new(f.parts@.len(), |i: int| part_rank(f.parts@[i])))
}

/// The pins of the first `n` parts of the order.
pub open spec fn all_pins(f: Frame, st: DrawnV, ink: InkV, n: int) -> (InkV, Option<Seq<char>>)
    decreases n,
{
    if n <= 0 {
        (ink, None)
    } else {
        let before = all_pins(f, st, ink, n - 1);
        if before.1 is Some {
            before
        } else {
            part_pins(f, st, before.0, f.parts@[pin_order(f)[n - 1]])
        }
    }
}

/// Power symbols on the first `n` marked wires.
pub open spec fn with_marks(g: GeoV, marks: Seq<(Seq<char>, Pt)>, n: int) -> GeoV
    decreases n,
{
    if n <= 0 {
        g
    } else {
        let p = marks[n - 1].1;
        let up = Pt { x: p.x, y: (p.y - 381_000) as i64 };
        with_marks(g, marks, n - 1).with_wire(seq![p, up]).with_power(marks[n - 1].0, up, 0)
    }
}

pub open spec fn with_wires(g: GeoV, ws: Seq<Seq<Pt>>) -> GeoV {
    GeoV { wires: g.wires + ws, ..g }
}

// ---------------------------------------------------------------- flags on wires

pub open spec fn flag_room(x: int, y: int) -> BBox {
    engine::bx(x - 571_500, y - 889_000, x + 571_500, y - 63_500)
}

/// A flag at `x` on the segment `c`-`d` keeps clear of symbols, other wires, parts and boxes.
pub open spec fn flag_fits(f: Frame, st: DrawnV, g: GeoV, c: Pt, d: Pt, x: int) -> bool {
    let t = flag_room(x, c.y as int);
    let segs = segs_of_all(st);
    &&& geom::lo(c.x as int, d.x as int) < x < geom::hi(c.x as int, d.x as int)
    &&& forall|i: int|
        0 <= i < st.on_wire.len() ==> geom::mag(x - (#[trigger] st.on_wire[i]).1.x) >= 889_000
            || geom::mag(c.y - st.on_wire[i].1.y) > 63_500
    &&& forall|k: int|
        0 <= k < segs.len() ==> ((#[trigger] segs[k]) == (c, d) || segs[k] == (d, c) || !geom::hits(
            segs[k].0,
            segs[k].1,
            t,
            12_700,
        ))
    &&& forall|i: int|
        0 <= i < f.parts@.len() ==> !geom::overlap_spec(t, #[trigger] f.extent_of(i), 0)
    &&& forall|i: int| 0 <= i < g.boxes.len() ==> !geom::overlap_spec(t, #[trigger] g.boxes[i], 0)
}

/// How far a point lies outside the body of a part.
pub open spec fn gap(f: Frame, x: int, y: int, i: int) -> int {
    let p = f.parts@[i];
    let b = symlib::turned_box(p.info.unit_spec(p.unit as int).bbox, p.at, p.rot as int, p.flip());
    geom::hi(geom::hi(b.x0 - x, x - b.x1), geom::hi(b.y0 - y, y - b.y1))
}

/// The least gap to one of the first `n` parts.
pub open spec fn least_gap(f: Frame, x: int, y: int, n: int) -> int
    decreases n,
{
    if n <= 0 {
        12_573_000
    } else if n == 1 {
        gap(f, x, y, 0)
    } else {
        geom::lo(least_gap(f, x, y, n - 1), gap(f, x, y, n - 1))
    }
}

/// A place that far away is better than the best so far.
pub open spec fn beats(best: Option<(int, Pt)>, dist: int) -> bool {
    match best {
        Some(b) => dist > b.0,
        None => true,
    }
}

/// The better of the best place so far and the places at `x`, two steps on, and so forth.
pub open spec fn best_on_seg(
    f: Frame,
    st: DrawnV,
    g: GeoV,
    s: (Pt, Pt),
    x: int,
    best: Option<(int, Pt)>,
) -> Option<(int, Pt)>
    decreases geom::hi(0, geom::hi(s.0.x as int, s.1.x as int) - x),
{
    if x >= geom::hi(s.0.x as int, s.1.x as int) {
        best
    } else {
        let dist = least_gap(f, x, s.0.y as int, f.parts@.len() as int);
        let next = if flag_fits(f, st, g, s.0, s.1, x) && beats(best, dist) {
            Some((dist, Pt { x: x as i64, y: s.0.y }))
        } else {
            best
        };
        best_on_seg(f, st, g, s, x + 254_000, next)
    }
}

/// The first even grid line from the left end of a segment on.
pub open spec fn first_line(lo: int) -> int {
    let k = pins::whole_steps(lo) / (GRID as int);
    (k + k % 2) * GRID
}

/// The best place on the first `n` segments that are level and at least four steps long.
pub open spec fn best_place(f: Frame, st: DrawnV, g: GeoV, segs: Seq<(Pt, Pt)>, n: int) -> Option<
    (int, Pt),
>
    decreases n,
{
    if n <= 0 {
        None
    } else {
        let before = best_place(f, st, g, segs, n - 1);
        let s = segs[n - 1];
        if s.0.y == s.1.y && geom::mag(s.0.x - s.1.x) >= 508_000 {
            best_on_seg(
                f,
                st,
                g,
                s,
                first_line(geom::lo(s.0.x as int, s.1.x as int)),
                before,
            )
        } else {
            before
        }
    }
}

// ---------------------------------------------------------------- flags at pins

pub open spec fn inside(b: BBox, p: Pt) -> bool {
    b.x0 <= p.x <= b.x1 && b.y0 <= p.y <= b.y1
}

pub open spec fn span_box(a: Pt, b: Pt) -> BBox {
    engine::bx(
        geom::lo(a.x as int, b.x as int) - 381_000,
        geom::lo(a.y as int, b.y as int) - 381_000,
        geom::hi(a.x as int, b.x as int) + 381_000,
        geom::hi(a.y as int, b.y as int) + 381_000,
    )
}

/// The part has no pin in the box other than at `pos`.
pub open spec fn no_pin_in(p: PartInst, b: BBox, pos: Pt) -> bool {
    forall|k: int|
        0 <= k < p.pins@.len() ==> !(inside(b, p.pos_spec(#[trigger] p.pins@[k])) && p.pos_spec(
            p.pins@[k],
        ) != pos)
}

pub open spec fn end_box(far: Pt) -> BBox {
    engine::bx(far.x - 571_500, far.y - 508_000, far.x + 571_500, far.y + 127_000)
}

/// A flag on a branch from `mid` to `far` at pin `e` keeps clear of pins, wires, parts and boxes.
pub open spec fn branch_fits(f: Frame, st: DrawnV, g: GeoV, e: End, mid: Pt, far: Pt) -> bool {
    let b = span_box(mid, far);
    let t = end_box(far);
    let segs = segs_of_all(st);
    let q = f.parts@[e.p as int];
    &&& forall|i: int| 0 <= i < f.parts@.len() ==> no_pin_in(#[trigger] f.parts@[i], b, e.pos)
    &&& forall|k: int|
        0 <= k < segs.len() ==> ((#[trigger] segs[k]).0 == e.pos || segs[k].1 == e.pos || segs[k].0
            == mid || segs[k].1 == mid || !geom::hits(segs[k].0, segs[k].1, b, 12_700))
    &&& forall|i: int|
        0 <= i < f.parts@.len() && i != e.p ==> !geom::overlap_spec(
            t,
            #[trigger] f.extent_of(i),
            -63_500,
        )
    &&& !geom::overlap_spec(
        t,
        engine::extent_spec(q, q.at, q.rot as int, q.flip(), false),
        -63_500,
    )
    &&& forall|i: int|
        0 <= i < g.boxes.len() ==> (inside(#[trigger] g.boxes[i], e.pos) || inside(g.boxes[i], mid)
            || !geom::overlap_spec(t, g.boxes[i], -38_100))
}

/// First segments of the first `n` wires.
pub open spec fn first_segs(ws: Seq<Seq<Pt>>, n: int) -> Seq<(Pt, Pt)>
    decreases n,
{
    if n <= 0 {
        Seq::empty()
    } else if ws[n - 1].len() >= 2 {
        first_segs(ws, n - 1).push((ws[n - 1][0], ws[n - 1][1]))
    } else {
        first_segs(ws, n - 1)
    }
}

pub open spec fn with_branch(st: DrawnV, g: GeoV, pos: Pt, mid: Pt, far: Pt) -> GeoV {
    let g1 = if covered(segs_of_all(st), pos, mid) || covered(
        first_segs(g.wires, g.wires.len() as int),
        pos,
        mid,
    ) {
        g
    } else {
        g.with_wire(seq![pos, mid])
    };
    g1.with_wire(seq![mid, far]).with_power("PWR_FLAG"@, far, 0)
}

/// The two ways in which a branch can leave the stub of a pin.
pub open spec fn branch_side(d: Dir, second: bool) -> Dir {
    match (d.0 == 0, second) {
        (true, false) => (-1i32, 0i32),
        (true, true) => (1i32, 0i32),
        (false, false) => (0i32, -1i32),
        (false, true) => (0i32, 1i32),
    }
}

/// The drawing with a branch at the first member, from position `i` on, that has room for one.
pub open spec fn branch_from(f: Frame, st: DrawnV, g: GeoV, mem: Seq<(usize, usize)>, i: int) -> GeoV
    decreases mem.len() - i,
{
    if i < 0 || i >= mem.len() {
        g
    } else {
        let e = f.end_spec(mem[i]);
        let mid = geom::step(e.pos, e.d, 254_000);
        let one = geom::step(mid, branch_side(e.d, false), 1_270_000);
        let two = geom::step(mid, branch_side(e.d, true), 1_270_000);
        if branch_fits(f, st, g, e, mid, one) {
            with_branch(st, g, e.pos, mid, one)
        } else if branch_fits(f, st, g, e, mid, two) {
            with_branch(st, g, e.pos, mid, two)
        } else {
            branch_from(f, st, g, mem, i + 1)
        }
    }
}

pub open spec fn member_rank(f: Frame, m: (usize, usize)) -> (i64, i64, i64) {
    let p = f.parts@[m.0 as int];
    (
        if p.info.ref_prefix@ == "J"@ {
            0i64
        } else {
            1i64
        },
        p.pins@.len() as i64,
        0i64,
    )
}

/// The pins of a net, those of connectors and of small parts first.
pub open spec fn sorted_members(f: Frame, net: Seq<char>) -> Seq<(usize, usize)> {
    let m = group::members_of(f, net);
    let o = order::by_key(Seq::new(m.len(), |i: int| member_rank(f, m[i])));
    Seq::new(m.len(), |i: int| m[o[i]])
}

/// The drawing with the flag of a net: on its best wire, else on a branch at a pin.
pub open spec fn with_flag(f: Frame, st: DrawnV, g: GeoV, net: Seq<char>) -> GeoV {
    let idx = group::wires_of(st, net);
    let segs = group::listed_segs(st.wires, idx, idx.len() as int);
    match best_place(f, st, g, segs, segs.len() as int) {
        Some(b) => {
            let p = b.1;
            let up = Pt { x: p.x, y: (p.y - 381_000) as i64 };
            g.with_wire(seq![p, up]).with_power("PWR_FLAG"@, up, 0)
        },
        None => branch_from(f, st, g, sorted_members(f, net), 0),
    }
}

/// The drawing with the flags of the first `n` flagged nets.
pub open spec fn with_flags(f: Frame, st: DrawnV, ink: InkV, n: int) -> GeoV
    decreases n,
{
    if n <= 0 {
        ink.g
    } else {
        let g = with_flags(f, st, ink, n - 1);
        let net = f.flags@[n - 1]@;
        if order_map::look(ink.flags, net) == Some(true) {
            g
        } else {
            with_flag(f, st, g, net)
        }
    }
}

/// The drawing of a group, and why it could not be made, where it could not.
pub open spec fn emit_spec(f: Frame, st: DrawnV, s: Session, index: SymbolIndex) -> (
    InkV,
    Option<Seq<char>>,
) {
    let n = f.parts@.len() as int;
    let flags = start_flags(f, st, f.flags@.len() as int);
    let (g1, bad) = with_instances(f, s, index, st.geo, n);
    if bad is Some {
        (InkV { g: g1, flags }, bad)
    } else {
        let (ink, err) = all_pins(f, st, InkV { g: with_wires(g1, st.wires), flags }, n);
        if err is Some {
            (ink, err)
        } else {
            let g2 = with_marks(ink.g, st.on_wire, st.on_wire.len() as int);
            (
                InkV {
                    g: with_flags(f, st, InkV { g: g2, ..ink }, f.flags@.len() as int),
                    ..ink
                },
                None,
            )
        }
    }
}

fn is_covered(segs: &Vec<(Pt, Pt)>, p: Pt, q: Pt) -> (r: bool)
    ensures
        r == covered(segs@, p, q),
{
    let mut k: usize = 0;
    while k < segs.len()
        invariant
            k <= segs@.len(),
            forall|j: int|
                0 <= j < k ==> !geom::covers_spec((#[trigger] segs@[j]).0, segs@[j].1, p, q),
        decreases segs@.len() - k,
    {
        if covers(segs[k].0, segs[k].1, p, q) {
            assert(geom::covers_spec(segs@[k as int].0, segs@[k as int].1, p, q));
            return true;
        }
        k += 1;
    }
    false
}

fn wire_segments(st: &Drawn) -> (r: Vec<(Pt, Pt)>)
    requires
        st.wf(),
    ensures
        r@ == segs_of_all(st@),
        group::wire_segs(r@),
{
    let mut r: Vec<(Pt, Pt)> = Vec::new();
    let mut i: usize = 0;
    while i < st.wires.len()
        invariant
            i <= st.wires@.len(),
            st.wf(),
            r@ == group::all_segs(st@.wires, i as int),
            group::wire_segs(r@),
        decreases st.wires@.len() - i,
    {
        assert(st@.wires[i as int] == st.wires@[i as int]@);
        assert(router::wire_path(st@.wires[i as int]));
        push_segs(&mut r, &st.wires[i]);
        i += 1;
    }
    r
}

fn wish_at(f: &Frame, st: &Drawn, p: &PartInst, k: usize) -> (r: PinSpec)
    requires
        f.wf(),
        p.wf(),
        layout::net_names_ok(*p),
        k < p.pins@.len(),
    ensures
        r@ == wish_for(*f, st@, *p, k as int),
        pins::spec_ok(r@),
{
    let number = p.pins[k].number.as_str();
    proof {
        reveal_strlit("labelled");
        reveal_strlit("wired");
        reveal_strlit("nc");
        reveal_strlit("float");
    }
    if has_key(&st.labelled_pins, p.id.as_str(), number) {
        return PinSpec::Word("labelled".to_owned());
    }
    if has_key(&st.wired_pins, p.id.as_str(), number) {
        return PinSpec::Word("wired".to_owned());
    }
    let net = net_at(p, k);
    if same(net.as_str(), "nc") || net.as_str().unicode_len() == 0 {
        return PinSpec::Word("nc".to_owned());
    }
    if same(net.as_str(), "float") {
        return PinSpec::Word("float".to_owned());
    }
    let rail = f.nets.contains_key(net.as_str()) && !f.signal_nets.contains_key(net.as_str());
    let ghost name = net@;
    let w = if rail {
        PinWishes {
            nc: false,
            power: Some(net),
            net: None,
            label: None,
            stub: None,
            kind: None,
            shape: None,
            shown: String::new(),
        }
    } else {
        PinWishes {
            nc: false,
            power: None,
            net: Some(net),
            label: None,
            stub: None,
            kind: None,
            shape: None,
            shown: String::new(),
        }
    };
    assert(w.shown@ =~= Seq::<char>::empty());
    PinSpec::Detail(w)
}

fn net_at(p: &PartInst, k: usize) -> (r: String)
    requires
        p.wf(),
        layout::net_names_ok(*p),
        k < p.pins@.len(),
    ensures
        r@ == pin_net(*p, k as int),
        r@.len() <= TEXT_MAX,
{
    match p.pinmap.get(p.pins[k].number.as_str()) {
        Some(n) => {
            proof {
                order_map::lemma_first_of(p.pinmap.names(), p.pins@[k as int].number@);
                assert(p.pinmap.vals@[p.pinmap.at(p.pins@[k as int].number@)]@.len() <= TEXT_MAX);
            }
            n.clone()
        },
        None => {
            proof {
                reveal_strlit("nc");
            }
            "nc".to_owned()
        },
    }
}

fn draw_branch_symbol(g: &mut Geo, segs: &Vec<(Pt, Pt)>, pos: Pt, d: Dir, net: &str, Ghost(st): Ghost<
    DrawnV,
>)
    requires
        pins::boxes_ok(old(g)@),
        segs@ == segs_of_all(st),
        symlib::tip_pt(pos),
        geom::is_dir(d),
        net@.len() <= TEXT_MAX,
    ensures
        pins::boxes_ok(final(g)@),
        final(g)@ == branch_symbol(st, old(g)@, pos, d, net@),
{
    let mid = outward(pos, d, 254_000);
    if !is_covered(segs, pos, mid) {
        g.add_line(pos, mid);
    }
    let up: i64 = if d.1 == 0 { -1 } else { d.1 as i64 };
    let far = Pt { x: mid.x, y: mid.y + up * 254_000 };
    g.add_line(mid, far);
    put_power(g, net, far, if up == -1 { 0 } else { 180 });
}

proof fn lemma_put_specs(m: Seq<(Seq<char>, SpecV)>, k: Seq<char>, v: SpecV)
    requires
        pins::specs_ok(m),
        pins::spec_ok(v),
    ensures
        pins::specs_ok(order_map::put(m, k, v)),
{
    order_map::lemma_seek(m, k, 0);
}

/// Gives a key a wish: in place where it has one, at the end where it has none.
fn put_wish(v: &mut Vec<(String, PinSpec)>, key: &String, w: PinSpec)
    ensures
        pins::wishes_v(final(v)@) == order_map::put(pins::wishes_v(old(v)@), key@, w@),
{
    let ghost v0 = v@;
    let ghost vs = pins::wishes_v(v@);
    let mut i: usize = 0;
    while i < v.len()
        invariant
            i <= v@.len(),
            v@ == v0,
            vs == pins::wishes_v(v0),
            vs == pins::wishes_v(old(v)@),
            order_map::seek(vs, key@, 0) == order_map::seek(vs, key@, i as int),
        decreases v@.len() - i,
    {
        assert(vs[i as int].0 == v0[i as int].0@);
        if v[i].0 == *key {
            let ghost wv = w@;
            v.set(i, (key.clone(), w));
            assert(pins::wishes_v(v@) =~= vs.update(i as int, (key@, wv)));
            return ;
        }
        i += 1;
    }
    let ghost wv = w@;
    v.push((key.clone(), w));
    assert(pins::wishes_v(v@) =~= vs.push((key@, wv)));
}

/// What drawing a group needs of its parts: symbols and names of a size that can be drawn.
pub open spec fn drawable(p: PartInst) -> bool {
    layout::net_names_ok(p) && pins::texts_ok(
        engine::visible(p.info.unit_spec(p.unit as int).pins@),
    )
}

fn draw_part_pins(
    f: &Frame,
    st: &Drawn,
    segs: &Vec<(Pt, Pt)>,
    g: &mut Geo,
    s: &mut Session,
    i: usize,
) -> (r: Result<(), LayoutError>)
    requires
        f.wf(),
        st.wf(),
        old(s).wf(),
        pins::boxes_ok(old(g)@),
        segs@ == segs_of_all(st@),
        i < f.parts@.len(),
        drawable(f.parts@[i as int]),
    ensures
        final(s).wf(),
        final(s).extra == old(s).extra,
        pins::boxes_ok(final(g)@),
        (
            InkV { g: final(g)@, flags: order_map::plain_pairs(final(s).flags) },
            pins::failure(r),
        ) == part_pins(
            *f,
            st@,
            InkV { g: old(g)@, flags: order_map::plain_pairs(old(s).flags) },
            f.parts@[i as int],
        ),
{
    let p = &f.parts[i];
    let ghost part = f.parts@[i as int];
    let ghost g0 = g@;
    assert(part.wf());
    let mut wishes: Vec<(String, PinSpec)> = Vec::new();
    let mut skip: Vec<String> = Vec::new();
    let mut k: usize = 0;
    assert(pins::wishes_v(wishes@) =~= Seq::empty());
    assert(text::views(skip@) =~= Seq::empty());
    while k < p.pins.len()
        invariant
            k <= p.pins@.len(),
            *p == part,
            part.wf(),
            drawable(part),
            f.wf(),
            st.wf(),
            segs@ == segs_of_all(st@),
            pins::boxes_ok(g@),
            g@ == at_pins(*f, st@, g0, part, k as int).g,
            pins::wishes_v(wishes@) == at_pins(*f, st@, g0, part, k as int).wishes,
            text::views(skip@) == at_pins(*f, st@, g0, part, k as int).skip,
            pins::specs_ok(pins::wishes_v(wishes@)),
        decreases p.pins@.len() - k,
    {
        let pin = &p.pins[k];
        assert(symlib::pin_ok(p.pins@[k as int]));
        if has_key(&st.power_symbol_pins, p.id.as_str(), pin.number.as_str()) {
            let net = net_at(p, k);
            draw_branch_symbol(g, segs, p.pin_pos(pin), p.pin_dir(pin), net.as_str(), Ghost(st@));
            let ghost k0 = skip@;
            skip.push(pin.number.clone());
            assert(text::views(skip@) =~= text::views(k0).push(pin.number@));
        } else {
            let w = wish_at(f, st, p, k);
            proof {
                lemma_put_specs(pins::wishes_v(wishes@), pin.number@, w@);
            }
            put_wish(&mut wishes, &pin.number, w);
        }
        k += 1;
    }
    proof {
        reveal_strlit("nc");
    }
    let default = PinSpec::Word("nc".to_owned());
    connect_pins(
        g,
        s,
        &p.info,
        p.at,
        p.rot,
        p.mirror.as_str(),
        p.unit,
        &wishes,
        &default,
        &skip,
    )
}

fn fits_flag(
    f: &Frame,
    st: &Drawn,
    segs: &Vec<(Pt, Pt)>,
    g: &Geo,
    c: Pt,
    d: Pt,
    x: i64,
) -> (r: bool)
    requires
        f.wf(),
        st.wf(),
        pins::boxes_ok(g@),
        segs@ == segs_of_all(st@),
        symlib::wire_pt(c),
        symlib::wire_pt(d),
        symlib::wide(x as int),
    ensures
        r == flag_fits(*f, st@, g@, c, d, x as int),
{
    if !(min_i(c.x, d.x) < x && x < max_i(c.x, d.x)) {
        return false;
    }
    let mut i: usize = 0;
    while i < st.symbol_on_wire.len()
        invariant
            i <= st.symbol_on_wire@.len(),
            st.wf(),
            symlib::wire_pt(c),
            symlib::wide(x as int),
            forall|j: int|
                0 <= j < i ==> geom::mag(x - (#[trigger] st@.on_wire[j]).1.x) >= 889_000 || geom::mag(
                    c.y - st@.on_wire[j].1.y,
                ) > 63_500,
        decreases st.symbol_on_wire@.len() - i,
    {
        let u = st.symbol_on_wire[i].1;
        assert(st@.on_wire[i as int].1 == u);
        assert(symlib::mark_pt(st@.on_wire[i as int].1));
        if !(abs_i(x - u.x) >= 889_000 || abs_i(c.y - u.y) > 63_500) {
            return false;
        }
        i += 1;
    }
    let t = BBox { x0: x - 571_500, y0: c.y - 889_000, x1: x + 571_500, y1: c.y - 63_500 };
    assert(t == flag_room(x as int, c.y as int));
    i = 0;
    while i < segs.len()
        invariant
            i <= segs@.len(),
            geom::box_ok(t),
            forall|k: int|
                0 <= k < i ==> ((#[trigger] segs@[k]) == (c, d) || segs@[k] == (d, c) || !geom::hits(
                    segs@[k].0,
                    segs@[k].1,
                    t,
                    12_700,
                )),
            segs@ == segs_of_all(st@),
            t == flag_room(x as int, c.y as int),
        decreases segs@.len() - i,
    {
        let (a, b) = segs[i];
        if !((a == c && b == d) || (a == d && b == c)) && seg_hits_box(a, b, &t, 12_700) {
            assert(!(segs@[i as int] == (c, d) || segs@[i as int] == (d, c) || !geom::hits(
                segs@[i as int].0,
                segs@[i as int].1,
                t,
                12_700,
            )));
            return false;
        }
        i += 1;
    }
    i = 0;
    while i < f.parts.len()
        invariant
            i <= f.parts@.len(),
            f.wf(),
            geom::box_ok(t),
            t == flag_room(x as int, c.y as int),
            forall|k: int| 0 <= k < i ==> !geom::overlap_spec(t, #[trigger] f.extent_of(k), 0),
        decreases f.parts@.len() - i,
    {
        assert(f.parts@[i as int].wf());
        let e = f.parts[i].extent();
        assert(e == f.extent_of(i as int));
        if overlap(&t, &e, 0) {
            return false;
        }
        i += 1;
    }
    i = 0;
    while i < g.boxes.len()
        invariant
            i <= g.boxes@.len(),
            pins::boxes_ok(g@),
            g@.boxes == g.boxes@,
            geom::box_ok(t),
            t == flag_room(x as int, c.y as int),
            forall|k: int| 0 <= k < i ==> !geom::overlap_spec(t, #[trigger] g@.boxes[k], 0),
        decreases g.boxes@.len() - i,
    {
        assert(geom::box_ok(g@.boxes[i as int]));
        if overlap(&t, &g.boxes[i], 0) {
            assert(geom::overlap_spec(t, g@.boxes[i as int], 0));
            return false;
        }
        i += 1;
    }
    true
}

fn gap_to_parts(f: &Frame, x: i64, y: i64) -> (r: i64)
    requires
        f.wf(),
        symlib::wide(x as int),
        symlib::wide(y as int),
    ensures
        r == least_gap(*f, x as int, y as int, f.parts@.len() as int),
{
    let mut best: i64 = 12_573_000;
    let mut i: usize = 0;
    while i < f.parts.len()
        invariant
            i <= f.parts@.len(),
            f.wf(),
            symlib::wide(x as int),
            symlib::wide(y as int),
            best == least_gap(*f, x as int, y as int, i as int),
        decreases f.parts@.len() - i,
    {
        let p = &f.parts[i];
        assert(f.parts@[i as int].wf());
        let b = extent(&p.info, p.at, p.rot, p.mirror.as_str(), p.unit);
        let v: i64 = max_i(max_i(b.x0 - x, x - b.x1), max_i(b.y0 - y, y - b.y1));
        assert(v == gap(*f, x as int, y as int, i as int));
        if i == 0 || v < best {
            best = v;
        }
        i += 1;
    }
    best
}

spec fn place_v(b: Option<(i64, Pt)>) -> Option<(int, Pt)> {
    match b {
        Some(p) => Some((p.0 as int, p.1)),
        None => None,
    }
}

fn best_on(
    f: &Frame,
    st: &Drawn,
    segs: &Vec<(Pt, Pt)>,
    g: &Geo,
    c: Pt,
    d: Pt,
    best: Option<(i64, Pt)>,
) -> (r: Option<(i64, Pt)>)
    requires
        f.wf(),
        st.wf(),
        pins::boxes_ok(g@),
        segs@ == segs_of_all(st@),
        symlib::wire_pt(c),
        symlib::wire_pt(d),
        best matches Some(b) ==> symlib::wire_pt(b.1),
    ensures
        r matches Some(b) ==> symlib::wire_pt(b.1),
        place_v(r) == best_on_seg(
            *f,
            st@,
            g@,
            (c, d),
            first_line(geom::lo(c.x as int, d.x as int)),
            place_v(best),
        ),
{
    let lo: i64 = min_i(c.x, d.x);
    let hi: i64 = max_i(c.x, d.x);
    let k: i64 = if lo >= 0 { floor_div(lo, GRID) } else { -floor_div(-lo, GRID) };
    proof {
        if lo >= 0 {
            assert(pins::whole_steps(lo as int) == k * 127_000);
        } else {
            assert(pins::whole_steps(lo as int) == -((-lo) / 127_000 * 127_000));
            assert(k == -((-lo) as int / 127_000));
        }
        assert(k * 127_000 / 127_000 == k);
    }
    let odd: i64 = geom::floor_mod(k, 2);
    let mut x: i64 = (k + odd) * GRID;
    assert(x == first_line(lo as int));
    let mut best = best;
    let ghost goal = best_on_seg(*f, st@, g@, (c, d), x as int, place_v(best));
    while x < hi
        invariant
            f.wf(),
            st.wf(),
            pins::boxes_ok(g@),
            segs@ == segs_of_all(st@),
            symlib::wire_pt(c),
            symlib::wire_pt(d),
            hi == geom::hi(c.x as int, d.x as int),
            -0x290_0000_0000 <= x <= 0x290_0000_0000,
            best matches Some(b) ==> symlib::wire_pt(b.1),
            goal == best_on_seg(*f, st@, g@, (c, d), x as int, place_v(best)),
        decreases geom::hi(0, hi - x),
    {
        if fits_flag(f, st, segs, g, c, d, x) {
            let dist: i64 = gap_to_parts(f, x, c.y);
            let better = match &best {
                Some(b) => dist > b.0,
                None => true,
            };
            if better {
                best = Some((dist, Pt { x, y: c.y }));
            }
        }
        x += 254_000;
    }
    best
}

fn find_place(f: &Frame, st: &Drawn, segs: &Vec<(Pt, Pt)>, g: &Geo, net: &str) -> (r: Option<Pt>)
    requires
        f.wf(),
        st.wf(),
        pins::boxes_ok(g@),
        segs@ == segs_of_all(st@),
    ensures
        r matches Some(p) ==> symlib::wire_pt(p),
        ({
            let idx = group::wires_of(st@, net@);
            let own = group::listed_segs(st@.wires, idx, idx.len() as int);
            match best_place(*f, st@, g@, own, own.len() as int) {
                Some(b) => r == Some(b.1),
                None => r is None,
            }
        }),
{
    let own = st.net_segs(net);
    let mut best: Option<(i64, Pt)> = None;
    let mut i: usize = 0;
    while i < own.len()
        invariant
            i <= own@.len(),
            f.wf(),
            st.wf(),
            pins::boxes_ok(g@),
            segs@ == segs_of_all(st@),
            group::wire_segs(own@),
            best matches Some(b) ==> symlib::wire_pt(b.1),
            place_v(best) == best_place(*f, st@, g@, own@, i as int),
        decreases own@.len() - i,
    {
        let (c, d) = own[i];
        assert(symlib::wire_pt(own@[i as int].0) && symlib::wire_pt(own@[i as int].1));
        if c.y == d.y && abs_i(c.x - d.x) >= 508_000 {
            best = best_on(f, st, segs, g, c, d, best);
        }
        i += 1;
    }
    match best {
        Some(b) => Some(b.1),
        None => None,
    }
}

fn is_inside(b: &BBox, p: Pt) -> (r: bool)
    ensures
        r == inside(*b, p),
{
    b.x0 <= p.x && p.x <= b.x1 && b.y0 <= p.y && p.y <= b.y1
}

fn pinless(p: &PartInst, b: &BBox, pos: Pt) -> (r: bool)
    requires
        p.wf(),
    ensures
        r == no_pin_in(*p, *b, pos),
{
    let mut k: usize = 0;
    while k < p.pins.len()
        invariant
            k <= p.pins@.len(),
            p.wf(),
            forall|j: int|
                0 <= j < k ==> !(inside(*b, p.pos_spec(#[trigger] p.pins@[j])) && p.pos_spec(
                    p.pins@[j],
                ) != pos),
        decreases p.pins@.len() - k,
    {
        assert(symlib::pin_ok(p.pins@[k as int]));
        let at = p.pin_pos(&p.pins[k]);
        if is_inside(b, at) && at != pos {
            assert(inside(*b, p.pos_spec(p.pins@[k as int])));
            return false;
        }
        k += 1;
    }
    true
}

#[verifier::spinoff_prover]
fn fits_branch(
    f: &Frame,
    segs: &Vec<(Pt, Pt)>,
    g: &Geo,
    e: &End,
    mid: Pt,
    far: Pt,
    Ghost(st): Ghost<DrawnV>,
) -> (r: bool)
    requires
        f.wf(),
        pins::boxes_ok(g@),
        segs@ == segs_of_all(st),
        group::end_ok(*f, *e),
        symlib::wire_pt(mid),
        symlib::wire_pt(far),
    ensures
        r == branch_fits(*f, st, g@, *e, mid, far),
{
    let b = BBox {
        x0: min_i(mid.x, far.x) - 381_000,
        y0: min_i(mid.y, far.y) - 381_000,
        x1: max_i(mid.x, far.x) + 381_000,
        y1: max_i(mid.y, far.y) + 381_000,
    };
    assert(b == span_box(mid, far));
    let mut i: usize = 0;
    while i < f.parts.len()
        invariant
            i <= f.parts@.len(),
            f.wf(),
            b == span_box(mid, far),
            forall|k: int| 0 <= k < i ==> no_pin_in(#[trigger] f.parts@[k], b, e.pos),
        decreases f.parts@.len() - i,
    {
        assert(f.parts@[i as int].wf());
        if !pinless(&f.parts[i], &b, e.pos) {
            assert(!no_pin_in(f.parts@[i as int], b, e.pos));
            return false;
        }
        i += 1;
    }
    i = 0;
    while i < segs.len()
        invariant
            i <= segs@.len(),
            segs@ == segs_of_all(st),
            geom::box_ok(b),
            b == span_box(mid, far),
            forall|k: int|
                0 <= k < i ==> ((#[trigger] segs@[k]).0 == e.pos || segs@[k].1 == e.pos || segs@[k].0
                    == mid || segs@[k].1 == mid || !geom::hits(segs@[k].0, segs@[k].1, b, 12_700)),
        decreases segs@.len() - i,
    {
        let (c, d) = segs[i];
        if !(c == e.pos || d == e.pos || c == mid || d == mid) && seg_hits_box(c, d, &b, 12_700) {
            assert(geom::hits(segs@[i as int].0, segs@[i as int].1, b, 12_700));
            return false;
        }
        i += 1;
    }
    let t = BBox {
        x0: far.x - 571_500,
        y0: far.y - 508_000,
        x1: far.x + 571_500,
        y1: far.y + 127_000,
    };
    assert(t == end_box(far));
    i = 0;
    while i < f.parts.len()
        invariant
            i <= f.parts@.len(),
            f.wf(),
            geom::box_ok(t),
            t == end_box(far),
            forall|k: int|
                0 <= k < i && k != e.p ==> !geom::overlap_spec(
                    t,
                    #[trigger] f.extent_of(k),
                    -63_500,
                ),
        decreases f.parts@.len() - i,
    {
        assert(f.parts@[i as int].wf());
        let x = f.parts[i].extent();
        assert(x == f.extent_of(i as int));
        if i != e.p && overlap(&t, &x, -63_500) {
            return false;
        }
        i += 1;
    }
    assert(f.parts@[e.p as int].wf());
    let own = f.parts[e.p].extent_no_attach();
    if overlap(&t, &own, -63_500) {
        return false;
    }
    i = 0;
    while i < g.boxes.len()
        invariant
            i <= g.boxes@.len(),
            pins::boxes_ok(g@),
            g@.boxes == g.boxes@,
            geom::box_ok(t),
            t == end_box(far),
            forall|k: int|
                0 <= k < i ==> (inside(#[trigger] g@.boxes[k], e.pos) || inside(g@.boxes[k], mid)
                    || !geom::overlap_spec(t, g@.boxes[k], -38_100)),
        decreases g.boxes@.len() - i,
    {
        assert(geom::box_ok(g@.boxes[i as int]));
        let q = &g.boxes[i];
        if !is_inside(q, e.pos) && !is_inside(q, mid) && overlap(&t, q, -38_100) {
            assert(!(inside(g@.boxes[i as int], e.pos) || inside(g@.boxes[i as int], mid)));
            return false;
        }
        i += 1;
    }
    true
}

fn leading_segs(g: &Geo) -> (r: Vec<(Pt, Pt)>)
    ensures
        r@ == first_segs(g@.wires, g@.wires.len() as int),
{
    let mut r: Vec<(Pt, Pt)> = Vec::new();
    let mut i: usize = 0;
    while i < g.wires.len()
        invariant
            i <= g.wires@.len(),
            r@ == first_segs(g@.wires, i as int),
        decreases g.wires@.len() - i,
    {
        assert(g@.wires[i as int] == g.wires@[i as int]@);
        if g.wires[i].len() >= 2 {
            r.push((g.wires[i][0], g.wires[i][1]));
        }
        i += 1;
    }
    r
}

fn draw_branch(g: &mut Geo, segs: &Vec<(Pt, Pt)>, pos: Pt, mid: Pt, far: Pt, Ghost(st): Ghost<DrawnV>)
    requires
        pins::boxes_ok(old(g)@),
        segs@ == segs_of_all(st),
        symlib::wire_pt(far),
    ensures
        pins::boxes_ok(final(g)@),
        final(g)@ == with_branch(st, old(g)@, pos, mid, far),
{
    let own = leading_segs(g);
    if !is_covered(segs, pos, mid) && !is_covered(&own, pos, mid) {
        g.add_line(pos, mid);
    }
    g.add_line(mid, far);
    proof {
        reveal_strlit("PWR_FLAG");
    }
    put_power(g, "PWR_FLAG", far, 0);
}

fn side_of_stub(d: Dir, second: bool) -> (r: Dir)
    ensures
        r == branch_side(d, second),
        geom::is_dir(r),
{
    let k: i32 = if second { 1 } else { -1 };
    if d.0 == 0 {
        (k, 0)
    } else {
        (0, k)
    }
}

fn members_in_order(f: &Frame, net: &str) -> (r: Vec<(usize, usize)>)
    requires
        f.wf(),
    ensures
        r@ == sorted_members(*f, net@),
        group::refs_ok(f.parts@, r@),
{
    let m = f.members(net);
    let mut keys: Vec<(i64, i64, i64)> = Vec::new();
    let mut i: usize = 0;
    while i < m.len()
        invariant
            i <= m@.len(),
            f.wf(),
            group::refs_ok(f.parts@, m@),
            keys@.len() == i,
            forall|j: int| 0 <= j < i ==> #[trigger] keys@[j] == member_rank(*f, m@[j]),
        decreases m@.len() - i,
    {
        let q: (usize, usize) = m[i];
        assert(m@[i as int].0 < f.parts@.len());
        let p = &f.parts[q.0];
        let first: i64 = if same(p.info.ref_prefix.as_str(), "J") { 0 } else { 1 };
        keys.push((first, p.pins.len() as i64, 0));
        i += 1;
    }
    assert(keys@ =~= Seq::new(m@.len(), |i: int| member_rank(*f, m@[i])));
    let o = order_by_key(&keys);
    let mut r: Vec<(usize, usize)> = Vec::new();
    i = 0;
    while i < o.len()
        invariant
            i <= o@.len(),
            o@.len() == m@.len(),
            group::refs_ok(f.parts@, m@),
            forall|j: int| 0 <= j < o@.len() ==> #[trigger] o@[j] < m@.len(),
            r@.len() == i,
            group::refs_ok(f.parts@, r@),
            forall|j: int| 0 <= j < i ==> #[trigger] r@[j] == m@[order::as_ints(o@)[j]],
        decreases o@.len() - i,
    {
        let k: usize = o[i];
        assert(k < m@.len());
        assert(m@[k as int].0 < f.parts@.len());
        r.push(m[k]);
        i += 1;
    }
    assert(r@ =~= sorted_members(*f, net@));
    r
}

fn branch_at_pin(f: &Frame, st: &Drawn, segs: &Vec<(Pt, Pt)>, g: &mut Geo, net: &str)
    requires
        f.wf(),
        st.wf(),
        pins::boxes_ok(old(g)@),
        segs@ == segs_of_all(st@),
    ensures
        pins::boxes_ok(final(g)@),
        final(g)@ == branch_from(*f, st@, old(g)@, sorted_members(*f, net@), 0),
{
    let mem = members_in_order(f, net);
    let ghost goal = branch_from(*f, st@, g@, mem@, 0);
    let mut i: usize = 0;
    while i < mem.len()
        invariant
            i <= mem@.len(),
            f.wf(),
            st.wf(),
            pins::boxes_ok(g@),
            segs@ == segs_of_all(st@),
            group::refs_ok(f.parts@, mem@),
            g@ == old(g)@,
            goal == branch_from(*f, st@, g@, mem@, i as int),
            goal == branch_from(*f, st@, old(g)@, sorted_members(*f, net@), 0),
        decreases mem@.len() - i,
    {
        assert(mem@[i as int].0 < f.parts@.len());
        let e = f.end_at(mem[i]);
        let mid = outward(e.pos, e.d, 254_000);
        let one = outward(mid, side_of_stub(e.d, false), 1_270_000);
        let two = outward(mid, side_of_stub(e.d, true), 1_270_000);
        if fits_branch(f, segs, g, &e, mid, one, Ghost(st@)) {
            draw_branch(g, segs, e.pos, mid, one, Ghost(st@));
            return ;
        }
        if fits_branch(f, segs, g, &e, mid, two, Ghost(st@)) {
            draw_branch(g, segs, e.pos, mid, two, Ghost(st@));
            return ;
        }
        i += 1;
    }
}

fn draw_flag(f: &Frame, st: &Drawn, segs: &Vec<(Pt, Pt)>, g: &mut Geo, net: &str)
    requires
        f.wf(),
        st.wf(),
        pins::boxes_ok(old(g)@),
        segs@ == segs_of_all(st@),
    ensures
        pins::boxes_ok(final(g)@),
        final(g)@ == with_flag(*f, st@, old(g)@, net@),
{
    match find_place(f, st, segs, g, net) {
        Some(p) => {
            let up = Pt { x: p.x, y: p.y - 381_000 };
            g.add_line(p, up);
            proof {
                reveal_strlit("PWR_FLAG");
            }
            put_power(g, "PWR_FLAG", up, 0);
        },
        None => {
            branch_at_pin(f, st, segs, g, net);
        },
    }
}

/// Notes for each flagged net whether its flag is wanted beside a power symbol.
fn note_flags(f: &Frame, st: &Drawn, s: &mut Session)
    requires
        st.wf(),
        old(s).wf(),
    ensures
        final(s).wf(),
        final(s).extra == old(s).extra,
        order_map::plain_pairs(final(s).flags) == start_flags(*f, st@, f.flags@.len() as int),
{
    flag_at_symbol_clear(s);
    let ghost extra = s.extra;
    let mut i: usize = 0;
    while i < f.flags.len()
        invariant
            i <= f.flags@.len(),
            st.wf(),
            s.wf(),
            s.extra == extra,
            order_map::plain_pairs(s.flags) == start_flags(*f, st@, i as int),
        decreases f.flags@.len() - i,
    {
        let net = f.flags[i].as_str();
        let gnd = is_gnd(net);
        let l = st.net_list(net);
        if gnd || l.len() == 0 {
            flag_at_symbol_set(s, net, false);
        }
        i += 1;
    }
}

fn draw_instances(f: &Frame, s: &Session, index: &SymbolIndex, g: &mut Geo) -> (r: Result<
    (),
    LayoutError,
>)
    requires
        f.wf(),
        geo::library_ok(*s, *index),
        pins::boxes_ok(old(g)@),
    ensures
        pins::boxes_ok(final(g)@),
        (final(g)@, pins::failure(r)) == with_instances(
            *f,
            *s,
            *index,
            old(g)@,
            f.parts@.len() as int,
        ),
{
    let ghost g0 = g@;
    let mut i: usize = 0;
    while i < f.parts.len()
        invariant
            i <= f.parts@.len(),
            f.wf(),
            geo::library_ok(*s, *index),
            pins::boxes_ok(g@),
            (g@, None::<Seq<char>>) == with_instances(*f, *s, *index, g0, i as int),
            g0 == old(g)@,
        decreases f.parts@.len() - i,
    {
        let p = &f.parts[i];
        assert(f.parts@[i as int].wf());
        let opts = PartOpts {
            rot: p.rot,
            value: p.value.clone(),
            footprint: p.footprint.clone(),
            fields: dup_fields(&p.fields),
            mirror: p.mirror.clone(),
            unit: p.unit,
            dnp: false,
        };
        let ghost before = g@;
        match g.add_part(s, index, p.id.as_str(), p.lib.as_str(), p.at, &opts) {
            Ok(sym) => {
                let e = p.extent_no_attach();
                let ghost mid = g@;
                let n: usize = g.boxes.len();
                g.boxes.set(n - 1, e);
                proof {
                    assert(g@.boxes =~= before.boxes.push(e));
                    assert(g@ =~= with_instance(before, *p, *sym));
                    assert forall|j: int| 0 <= j < g@.boxes.len() implies geom::box_ok(
                        #[trigger] g@.boxes[j],
                    ) by {
                        if j < before.boxes.len() {
                            assert(geom::box_ok(before.boxes[j]));
                        }
                    }
                }
            },
            Err(e) => {
                proof {
                    lemma_stopped(*f, *s, *index, g0, i + 1, f.parts@.len() as int);
                }
                return Err(e);
            },
        }
        i += 1;
    }
    Ok(())
}

proof fn lemma_stopped(f: Frame, s: Session, index: SymbolIndex, g: GeoV, i: int, n: int)
    requires
        0 <= i <= n,
        with_instances(f, s, index, g, i).1 is Some,
    ensures
        with_instances(f, s, index, g, n) == with_instances(f, s, index, g, i),
    decreases n - i,
{
    if i < n {
        lemma_stopped(f, s, index, g, i, n - 1);
    }
}

proof fn lemma_pins_stopped(f: Frame, st: DrawnV, ink: InkV, i: int, n: int)
    requires
        0 <= i <= n,
        all_pins(f, st, ink, i).1 is Some,
    ensures
        all_pins(f, st, ink, n) == all_pins(f, st, ink, i),
    decreases n - i,
{
    if i < n {
        lemma_pins_stopped(f, st, ink, i, n - 1);
    }
}

fn draw_all_pins(f: &Frame, st: &Drawn, segs: &Vec<(Pt, Pt)>, g: &mut Geo, s: &mut Session) -> (r: Result<
    (),
    LayoutError,
>)
    requires
        f.wf(),
        st.wf(),
        old(s).wf(),
        pins::boxes_ok(old(g)@),
        segs@ == segs_of_all(st@),
        forall|i: int| 0 <= i < f.parts@.len() ==> drawable(#[trigger] f.parts@[i]),
    ensures
        final(s).wf(),
        final(s).extra == old(s).extra,
        pins::boxes_ok(final(g)@),
        (
            InkV { g: final(g)@, flags: order_map::plain_pairs(final(s).flags) },
            pins::failure(r),
        ) == all_pins(
            *f,
            st@,
            InkV { g: old(g)@, flags: order_map::plain_pairs(old(s).flags) },
            f.parts@.len() as int,
        ),
{
    let ghost ink = InkV { g: g@, flags: order_map::plain_pairs(s.flags) };
    let ghost extra = s.extra;
    let mut keys: Vec<(i64, i64, i64)> = Vec::new();
    let mut i: usize = 0;
    while i < f.parts.len()
        invariant
            i <= f.parts@.len(),
            keys@.len() == i,
            forall|j: int| 0 <= j < i ==> #[trigger] keys@[j] == part_rank(f.parts@[j]),
        decreases f.parts@.len() - i,
    {
        let k: i64 = if f.parts[i].is_connector { 0 } else { 1 };
        keys.push((k, 0, 0));
        i += 1;
    }
    assert(keys@ =~= Seq::new(f.parts@.len(), |i: int| part_rank(f.parts@[i])));
    let o = order_by_key(&keys);
    i = 0;
    while i < o.len()
        invariant
            i <= o@.len(),
            o@.len() == f.parts@.len(),
            f.wf(),
            st.wf(),
            s.wf(),
            s.extra == extra,
            extra == old(s).extra,
            pins::boxes_ok(g@),
            segs@ == segs_of_all(st@),
            forall|i: int| 0 <= i < f.parts@.len() ==> drawable(#[trigger] f.parts@[i]),
            order::as_ints(o@) == pin_order(*f),
            forall|j: int| 0 <= j < o@.len() ==> #[trigger] o@[j] < f.parts@.len(),
            ink == (InkV { g: old(g)@, flags: order_map::plain_pairs(old(s).flags) }),
            (
                InkV { g: g@, flags: order_map::plain_pairs(s.flags) },
                None::<Seq<char>>,
            ) == all_pins(*f, st@, ink, i as int),
        decreases o@.len() - i,
    {
        let k: usize = o[i];
        assert(k < f.parts@.len());
        assert(order::as_ints(o@)[i as int] == k);
        assert(drawable(f.parts@[k as int]));
        match draw_part_pins(f, st, segs, g, s, k) {
            Ok(_) => {},
            Err(e) => {
                proof {
                    lemma_pins_stopped(*f, st@, ink, i + 1, o@.len() as int);
                }
                return Err(e);
            },
        }
        i += 1;
    }
    Ok(())
}

fn draw_marks(st: &Drawn, g: &mut Geo)
    requires
        st.wf(),
        pins::boxes_ok(old(g)@),
    ensures
        pins::boxes_ok(final(g)@),
        final(g)@ == with_marks(old(g)@, st@.on_wire, st@.on_wire.len() as int),
{
    let ghost g0 = g@;
    let mut i: usize = 0;
    while i < st.symbol_on_wire.len()
        invariant
            i <= st.symbol_on_wire@.len(),
            st.wf(),
            pins::boxes_ok(g@),
            g@ == with_marks(g0, st@.on_wire, i as int),
        decreases st.symbol_on_wire@.len() - i,
    {
        let p = st.symbol_on_wire[i].1;
        assert(st@.on_wire[i as int] == (st.symbol_on_wire@[i as int].0@, p));
        assert(symlib::mark_pt(st@.on_wire[i as int].1));
        let up = Pt { x: p.x, y: p.y - 381_000 };
        g.add_line(p, up);
        put_power(g, st.symbol_on_wire[i].0.as_str(), up, 0);
        i += 1;
    }
}

impl GroupLayout {
    /// Parts, wires, labels, power symbols and PWR_FLAGs of the block in its own coordinates. An
    /// unknown symbol stops the drawing; what was drawn before stays with the group.
    pub fn emit(&mut self, s: &mut Session, index: &SymbolIndex) -> (r: Result<Geo, LayoutError>)
        requires
            old(self).wf(),
            geo::library_ok(*old(s), *index),
            forall|i: int|
                0 <= i < old(self).frame.parts@.len() ==> drawable(
                    #[trigger] old(self).frame.parts@[i],
                ),
        ensures
            final(self).wf(),
            final(self).frame == old(self).frame,
            final(s).wf(),
            final(s).extra == old(s).extra,
            ({
                let (ink, bad) = emit_spec(old(self).frame, old(self).drawn@, *old(s), *index);
                &&& order_map::plain_pairs(final(s).flags) == ink.flags
                &&& match r {
                    Ok(g) => bad is None && g@ == ink.g && pins::boxes_ok(g@) && final(self).drawn@ == (DrawnV {
                        geo: GeoV::empty(),
                        ..old(self).drawn@
                    }),
                    Err(e) => bad == Some(e.0@) && final(self).drawn@ == (DrawnV {
                        geo: ink.g,
                        ..old(self).drawn@
                    }),
                }
            }),
    {
        let ghost st0 = self.drawn@;
        let ghost s0 = *s;
        let mut g = self.drawn.geo.dup();
        note_flags(&self.frame, &self.drawn, s);
        assert(geo::library_ok(*s, *index));
        proof {
            lemma_same_symbols(self.frame, s0, *s, *index, g@, self.frame.parts@.len() as int);
        }
        match draw_instances(&self.frame, s, index, &mut g) {
            Ok(_) => {},
            Err(e) => {
                self.drawn.geo = g;
                assert(self.drawn@ =~= DrawnV { geo: g@, ..st0 });
                return Err(e);
            },
        }
        let ghost g1 = g@;
        let mut i: usize = 0;
        assert(g1.wires + st0.wires.take(0) =~= g1.wires);
        assert(g@ =~= with_wires(g1, st0.wires.take(0)));
        while i < self.drawn.wires.len()
            invariant
                i <= self.drawn.wires@.len(),
                self.drawn@ == st0,
                self.frame == old(self).frame,
                st0.wires == geo::paths_v(self.drawn.wires@),
                g@ == with_wires(g1, st0.wires.take(i as int)),
            decreases self.drawn.wires@.len() - i,
        {
            let ghost b = g@;
            g.add_wire(&self.drawn.wires[i]);
            proof {
                assert(st0.wires[i as int] == self.drawn.wires@[i as int]@);
                assert(st0.wires.take(i + 1) =~= st0.wires.take(i as int).push(st0.wires[i as int]));
                assert(g@.wires =~= g1.wires + st0.wires.take(i + 1));
                assert(g@ =~= with_wires(g1, st0.wires.take(i + 1)));
            }
            i += 1;
        }
        assert(st0.wires.take(i as int) =~= st0.wires);
        let segs = wire_segments(&self.drawn);
        match draw_all_pins(&self.frame, &self.drawn, &segs, &mut g, s) {
            Ok(_) => {},
            Err(e) => {
                self.drawn.geo = g;
                assert(self.drawn@ =~= DrawnV { geo: g@, ..st0 });
                return Err(e);
            },
        }
        draw_marks(&self.drawn, &mut g);
        let ghost ink = InkV { g: g@, flags: order_map::plain_pairs(s.flags) };
        i = 0;
        while i < self.frame.flags.len()
            invariant
                i <= self.frame.flags@.len(),
                self.wf(),
                self.drawn@ == st0,
                self.frame == old(self).frame,
                s.wf(),
                pins::boxes_ok(g@),
                segs@ == segs_of_all(st0),
                ink.flags == order_map::plain_pairs(s.flags),
                g@ == with_flags(self.frame, st0, ink, i as int),
            decreases self.frame.flags@.len() - i,
        {
            proof {
                order_map::lemma_plain_found(s.flags, self.frame.flags@[i as int]@);
            }
            let net = self.frame.flags[i].as_str();
            if flag_at_symbol_get(s, net) != Some(true) {
                draw_flag(&self.frame, &self.drawn, &segs, &mut g, net);
            }
            i += 1;
        }
        self.drawn.geo = Geo::new();
        assert(self.drawn@ =~= DrawnV { geo: GeoV::empty(), ..st0 });
        Ok(g)
    }
}

pub(crate) proof fn lemma_same_symbols(f: Frame, a: Session, b: Session, index: SymbolIndex, g: GeoV, n: int)
    requires
        a.extra == b.extra,
    ensures
        with_instances(f, a, index, g, n) == with_instances(f, b, index, g, n),
    decreases n,
{
    if n > 0 {
        lemma_same_symbols(f, a, b, index, g, n - 1);
    }
}

} // verus!
