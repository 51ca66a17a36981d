//! Between a layout and a build: what a sheet already holds, which designs are small, and what a
//! build reports.
use crate::arrange;
use crate::arrange::{note_of_enlarging, note_of_paper, papers_to_enlarge};
use crate::flex::cut_wide;
use crate::flexlayout;
use crate::flexlayout::has_fault;
use crate::geo;
use crate::geo::{extent, extra_infos_get, Geo, GeoV, Session};
use crate::geo_json;
use crate::geo_json::{add_drawing, sheet_design};
use crate::geom;
use crate::geom::{BBox, Pt, GRID};
use crate::json;
use crate::json::{Json, JsonV};
use crate::model::SHEET_MAX;
use crate::model_json;
use crate::model_json::{list_of, object_of, pt_mm};
use crate::netlist;
use crate::order_map;
use crate::orient;
use crate::orient::cut_off;
use crate::pack;
use crate::pipeline::Built;
use crate::report;
use crate::symlib;
use crate::symlib::{SymbolIndex, SymbolInfo};
use crate::text;
use crate::text::{same, split, starts_with};
use std::sync::Arc;
use vstd::prelude::*;

verus! {

// ---------------------------------------------------------------- small designs
/// The area of the first `n` blocks, within what is counted.
pub open spec fn total_area(geos: Seq<GeoV>, n: int) -> int
    decreases n,
{
    if n <= 0 {
        0
    } else {
        geom::lo(
            geom::hi(
                total_area(geos, n - 1) + arrange::area_of(geos[n - 1]),
                -0x1000_0000_0000_0000_0000_0000,
            ),
            0x1000_0000_0000_0000_0000_0000,
        )
    }
}

/// Whether a design is small: its blocks cover less than 55 hundredths of an A5 sheet.
pub open spec fn is_small(geos: Seq<GeoV>) -> bool {
    100 * total_area(geos, geos.len() as int) < 55 * (143 * GRID * (82 * GRID))
}

/// Whether a design is small enough for an A5 sheet.
pub fn small_design(geos: &Vec<Geo>) -> (r: bool)
    requires
        arrange::blocks_near(pack::geos_v(geos@)),
    ensures
        r == is_small(pack::geos_v(geos@)),
{
    let ghost gv = pack::geos_v(geos@);
    let mut sum: i128 = 0;
    let mut i: usize = 0;
    while i < geos.len()
        invariant
            i <= geos@.len(),
            gv == pack::geos_v(geos@),
            arrange::blocks_near(gv),
            sum == total_area(gv, i as int),
            -0x1000_0000_0000_0000_0000_0000 <= sum <= 0x1000_0000_0000_0000_0000_0000,
        decreases geos@.len() - i,
    {
        assert(gv[i as int] == geos@[i as int]@);
        assert(gv[i as int].within(0x80_0000_0000));
        let b = geos[i].bbox();
        let (w, h): (i128, i128) = (b.x1 as i128 - b.x0 as i128, b.y1 as i128 - b.y0 as i128);
        assert(-0x2_0000_0000_0000_0000_0000 <= w * h <= 0x2_0000_0000_0000_0000_0000)
            by (nonlinear_arith)
            requires
                -0x100_0000_0000 <= w <= 0x100_0000_0000,
                -0x100_0000_0000 <= h <= 0x100_0000_0000,
        ;
        let s: i128 = sum + w * h;
        sum = if s > 0x1000_0000_0000_0000_0000_0000 {
            0x1000_0000_0000_0000_0000_0000
        } else if s < -0x1000_0000_0000_0000_0000_0000 {
            -0x1000_0000_0000_0000_0000_0000
        } else {
            s
        };
        i += 1;
    }
    assert(gv.len() == geos@.len());
    100 * sum < 55 * (143 * 127_000 * (82 * 127_000))
}

// ---------------------------------------------------------------- what a sheet holds
/// A box with its coordinates cut to what can be packed around.
pub open spec fn cut_to(x0: int, y0: int, x1: int, y1: int) -> BBox {
    BBox { x0: orient::cut(x0), y0: orient::cut(y0), x1: orient::cut(x1), y1: orient::cut(y1) }
}

fn cut_box(x0: i128, y0: i128, x1: i128, y1: i128) -> (r: BBox)
    ensures
        r == cut_to(x0 as int, y0 as int, x1 as int, y1 as int),
        pack::near_box(r),
{
    BBox { x0: cut_wide(x0), y0: cut_wide(y0), x1: cut_wide(x1), y1: cut_wide(y1) }
}

pub open spec fn cut_point(p: Pt) -> Pt {
    Pt { x: orient::cut(p.x as int), y: orient::cut(p.y as int) }
}

pub open spec fn text_or(j: JsonV, k: Seq<char>, other: Seq<char>) -> Seq<char> {
    match json::field(j, k) {
        Some(JsonV::Str(s)) => s,
        _ => other,
    }
}

/// A whole number of a value; another where it holds none. A fraction is dropped.
pub open spec fn whole_or(j: JsonV, k: Seq<char>, other: int) -> i32 {
    (match json::field(j, k) {
        Some(v) => match json::num_in(v) {
            Some(n) => {
                let q = if n < 0 {
                    -(-n / 1_000_000)
                } else {
                    n / 1_000_000
                };
                if q > i32::MAX {
                    i32::MAX as int
                } else if q < i32::MIN {
                    i32::MIN as int
                } else {
                    q
                }
            },
            None => other,
        },
        None => other,
    }) as i32
}

pub open spec fn point_or_origin(j: JsonV, k: Seq<char>) -> Pt {
    match json::field(j, k) {
        Some(v) => cut_point(model_json::point_of(v)),
        None => Pt { x: 0, y: 0 },
    }
}

/// The symbol of a part of a design: one of the stock, else one that the design brings.
pub open spec fn symbol_of(p: JsonV, s: Session, index: SymbolIndex) -> Option<Arc<SymbolInfo>> {
    let lib = text_or(p, "lib"@, ""@);
    match index.found(lib) {
        Some(i) => Some(i),
        None => s.extra.found(text_or(p, "lib_name"@, lib)),
    }
}

/// The room that a part takes: its extent with a margin.
pub open spec fn part_room(p: JsonV, s: Session, index: SymbolIndex) -> Seq<BBox> {
    match symbol_of(p, s, index) {
        Some(sym) => {
            let e = symlib::turned_box(
                sym.unit_spec(whole_or(p, "unit"@, 1) as int).bbox,
                point_or_origin(p, "at"@),
                whole_or(p, "rot"@, 0) as int,
                symlib::mirror_spec(text_or(p, "mirror"@, ""@)),
            );
            seq![cut_to(e.x0 - 4 * GRID, e.y0 - 3 * GRID, e.x1 + 4 * GRID, e.y1 + 3 * GRID)]
        },
        None => Seq::empty(),
    }
}

pub open spec fn part_rooms(v: Seq<JsonV>, s: Session, index: SymbolIndex, n: int) -> Seq<BBox>
    decreases n,
{
    if n <= 0 {
        Seq::empty()
    } else {
        part_rooms(v, s, index, n - 1) + part_room(v[n - 1], s, index)
    }
}

fn text_of_key(p: &Json, k: &str, other: &str) -> (r: String)
    ensures
        r@ == text_or(p@, k@, other@),
{
    match p.get(k) {
        Some(v) => match v.as_str() {
            Some(s) => s.clone(),
            None => other.to_owned(),
        },
        None => other.to_owned(),
    }
}

fn whole_of_key(p: &Json, k: &str, other: i32) -> (r: i32)
    requires
        json::ok(p@),
    ensures
        r == whole_or(p@, k@, other as int),
{
    match p.get(k) {
        Some(v) => match v.as_num() {
            Some(n) => {
                let a: i64 = if n < 0 { -n } else { n };
                let m: i64 = a / 1_000_000;
                let q: i64 = if n < 0 { -m } else { m };
                if q > i32::MAX as i64 {
                    i32::MAX
                } else if q < i32::MIN as i64 {
                    i32::MIN
                } else {
                    q as i32
                }
            },
            None => other,
        },
        None => other,
    }
}

fn point_of_key(p: &Json, k: &str) -> (r: Pt)
    requires
        json::ok(p@),
    ensures
        r == point_or_origin(p@, k@),
        symlib::near_pt(r),
{
    match p.get(k) {
        Some(v) => {
            let q = pt_mm(v);
            Pt { x: cut_off(q.x), y: cut_off(q.y) }
        },
        None => Pt { x: 0, y: 0 },
    }
}

fn add_part_room(out: &mut Vec<BBox>, p: &Json, s: &Session, index: &SymbolIndex)
    requires
        json::ok(p@),
        geo::library_ok(*s, *index),
        pack::near_boxes(old(out)@),
    ensures
        final(out)@ == old(out)@ + part_room(p@, *s, *index),
        pack::near_boxes(final(out)@),
{
    let ghost o = out@;
    assert(o =~= o + Seq::<BBox>::empty());
    let lib = text_of_key(p, "lib", "");
    let name = text_of_key(p, "lib_name", lib.as_str());
    let sym: Option<Arc<SymbolInfo>> = match index.get(lib.as_str()) {
        Some(i) => Some(i.clone()),
        None => extra_infos_get(s, name.as_str()),
    };
    if let Some(sym) = sym {
        proof {
            crate::order_map::lemma_first_of(s.extra.names(), name@);
        }
        let rot = whole_of_key(p, "rot", 0);
        let unit = whole_of_key(p, "unit", 1);
        let mirror = text_of_key(p, "mirror", "");
        let at = point_of_key(p, "at");
        let e = extent(&sym, at, rot, mirror.as_str(), unit);
        out.push(
            cut_box(
                e.x0 as i128 - 4 * GRID as i128,
                e.y0 as i128 - 3 * GRID as i128,
                e.x1 as i128 + 4 * GRID as i128,
                e.y1 as i128 + 3 * GRID as i128,
            ),
        );
        assert(out@ =~= o + part_room(p@, *s, *index));
        assert forall|i: int| 0 <= i < out@.len() implies pack::near_box(#[trigger] out@[i]) by {
            if i < o.len() {
                assert(pack::near_box(o[i]));
            }
        }
    }
}

/// A point of a design: a list that starts with two numbers.
pub open spec fn point_in(j: JsonV) -> Option<Pt> {
    match json::arr_in(j) {
        Some(a) => if a.len() >= 2 && json::num_in(a[0]) is Some && json::num_in(a[1]) is Some {
            Some(cut_point(model_json::point_of(j)))
        } else {
            None
        },
        None => None,
    }
}

fn read_point(j: &Json) -> (r: Option<Pt>)
    requires
        json::ok(j@),
    ensures
        r == point_in(j@),
        r is Some ==> orient::fits(r->0.x as int) && orient::fits(r->0.y as int),
{
    match j.as_array() {
        Some(a) => {
            assert(json::values_v(a@).len() == a@.len());
            if a.len() < 2 {
                return None;
            }
            assert(json::values_v(a@)[0] == a@[0]@ && json::values_v(a@)[1] == a@[1]@);
            assert(json::ok(json::values_v(a@)[0]) && json::ok(json::values_v(a@)[1]));
            if a[0].as_num().is_none() || a[1].as_num().is_none() {
                return None;
            }
            let p = pt_mm(j);
            Some(Pt { x: cut_off(p.x), y: cut_off(p.y) })
        },
        None => None,
    }
}

/// The points among the first `n` values.
pub open spec fn points_in(v: Seq<JsonV>, n: int) -> Seq<Pt>
    decreases n,
{
    if n <= 0 {
        Seq::empty()
    } else {
        match point_in(v[n - 1]) {
            Some(p) => points_in(v, n - 1).push(p),
            None => points_in(v, n - 1),
        }
    }
}

pub open spec fn point_box(p: Pt) -> BBox {
    BBox { x0: p.x, y0: p.y, x1: p.x, y1: p.y }
}

pub open spec fn point_boxes(v: Seq<Pt>) -> Seq<BBox> {
    Seq::new(v.len(), |i: int| point_box(v[i]))
}

/// The values that the points of a wire are in: the wire itself, or what it holds as points.
pub open spec fn wire_values(w: JsonV) -> Seq<JsonV> {
    if w is Obj {
        match json::field(w, "pts"@) {
            Some(v) => json::items_of(v),
            None => Seq::empty(),
        }
    } else {
        json::items_of(w)
    }
}

/// The room of a wire: the box around its points, half a step wider.
pub open spec fn wire_room(w: JsonV) -> Seq<BBox> {
    let v = wire_values(w);
    let p = points_in(v, v.len() as int);
    if p.len() == 0 {
        Seq::empty()
    } else {
        let b = geo::hull(point_boxes(p));
        seq![cut_to(b.x0 - 63_500, b.y0 - 63_500, b.x1 + 63_500, b.y1 + 63_500)]
    }
}

pub open spec fn wire_rooms(v: Seq<JsonV>, n: int) -> Seq<BBox>
    decreases n,
{
    if n <= 0 {
        Seq::empty()
    } else {
        wire_rooms(v, n - 1) + wire_room(v[n - 1])
    }
}

/// The room around the place of a label or a power symbol.
pub open spec fn mark_room(m: JsonV) -> Seq<BBox> {
    match json::field(m, "at"@) {
        Some(at) => match point_in(at) {
            Some(p) => seq![
                cut_to(p.x - 5 * GRID, p.y - 4 * GRID, p.x + 5 * GRID, p.y + 4 * GRID),
            ],
            None => Seq::empty(),
        },
        None => Seq::empty(),
    }
}

pub open spec fn mark_rooms(v: Seq<JsonV>, n: int) -> Seq<BBox>
    decreases n,
{
    if n <= 0 {
        Seq::empty()
    } else {
        mark_rooms(v, n - 1) + mark_room(v[n - 1])
    }
}

/// The room of a text: about one step for a letter, two for a line.
pub open spec fn text_room(t: JsonV) -> Seq<BBox> {
    match json::field(t, "at"@) {
        Some(at) => match point_in(at) {
            Some(p) => {
                let lines = text::pieces(text_or(t, "text"@, ""@), '\n');
                seq![
                    cut_to(
                        p.x as int,
                        p.y - 2 * GRID,
                        p.x + 120_650 * geo::longest(lines) + GRID,
                        p.y + 2 * GRID * lines.len(),
                    ),
                ]
            },
            None => Seq::empty(),
        },
        None => Seq::empty(),
    }
}

pub open spec fn text_rooms(v: Seq<JsonV>, n: int) -> Seq<BBox>
    decreases n,
{
    if n <= 0 {
        Seq::empty()
    } else {
        text_rooms(v, n - 1) + text_room(v[n - 1])
    }
}

/// The rooms that a design takes: of its parts, its wires, its labels, its power symbols and its
/// texts.
pub open spec fn rooms_of(d: Seq<(Seq<char>, JsonV)>, s: Session, index: SymbolIndex) -> Seq<BBox> {
    let parts = model_json::list_at(d, "parts"@);
    let wires = model_json::list_at(d, "wires"@);
    let labels = model_json::list_at(d, "labels"@);
    let power = model_json::list_at(d, "power"@);
    let texts = model_json::list_at(d, "texts"@);
    part_rooms(parts, s, index, parts.len() as int) + wire_rooms(wires, wires.len() as int)
        + mark_rooms(labels, labels.len() as int) + mark_rooms(power, power.len() as int)
        + text_rooms(texts, texts.len() as int)
}

fn push_room(out: &mut Vec<BBox>, b: BBox)
    requires
        pack::near_boxes(old(out)@),
        pack::near_box(b),
    ensures
        final(out)@ == old(out)@ + seq![b],
        pack::near_boxes(final(out)@),
{
    let ghost o = out@;
    out.push(b);
    assert(out@ =~= o + seq![b]);
    assert forall|i: int| 0 <= i < out@.len() implies pack::near_box(#[trigger] out@[i]) by {
        if i < o.len() {
            assert(pack::near_box(o[i]));
        }
    }
}

fn add_wire_room(out: &mut Vec<BBox>, w: &Json)
    requires
        json::ok(w@),
        pack::near_boxes(old(out)@),
    ensures
        final(out)@ == old(out)@ + wire_room(w@),
        pack::near_boxes(final(out)@),
{
    let ghost o = out@;
    assert(o =~= o + Seq::<BBox>::empty());
    let none: Vec<Json> = Vec::new();
    assert(json::values_v(none@) =~= Seq::<JsonV>::empty());
    let v: &Vec<Json> = match w {
        Json::Obj(_) => match w.get("pts") {
            Some(p) => match p.as_array() {
                Some(a) => a,
                None => &none,
            },
            None => &none,
        },
        _ => match w.as_array() {
            Some(a) => a,
            None => &none,
        },
    };
    let ghost vv = json::values_v(v@);
    assert(vv =~= wire_values(w@));
    assert(json::all_ok(vv));
    let mut g = Geo::new();
    let ghost mut pts: Seq<Pt> = Seq::empty();
    let mut i: usize = 0;
    assert(g.boxes@ =~= point_boxes(pts));
    while i < v.len()
        invariant
            i <= v@.len(),
            vv == json::values_v(v@),
            json::all_ok(vv),
            pts == points_in(vv, i as int),
            g.boxes@ == point_boxes(pts),
            forall|k: int| 0 <= k < pts.len() ==> geo::reach_pt(#[trigger] pts[k], 0x80_0000_0000),
        decreases v@.len() - i,
    {
        assert(vv[i as int] == v@[i as int]@);
        assert(json::ok(vv[i as int]));
        if let Some(p) = read_point(&v[i]) {
            let ghost b = pts;
            g.boxes.push(BBox { x0: p.x, y0: p.y, x1: p.x, y1: p.y });
            proof {
                pts = pts.push(p);
                assert(g.boxes@ =~= point_boxes(pts));
            }
        }
        i += 1;
    }
    assert(vv.len() == v@.len());
    if g.boxes.len() > 0 {
        assert forall|k: int| 0 <= k < g.boxes@.len() implies geo::reach_box(
            #[trigger] g.boxes@[k],
            0x80_0000_0000,
        ) by {
            assert(geo::reach_pt(pts[k], 0x80_0000_0000));
        }
        proof {
            geo::lemma_hull_reach(g.boxes@, 0x80_0000_0000);
        }
        let b = g.bbox();
        push_room(
            out,
            cut_box(
                b.x0 as i128 - 63_500,
                b.y0 as i128 - 63_500,
                b.x1 as i128 + 63_500,
                b.y1 as i128 + 63_500,
            ),
        );
    }
}

fn add_mark_room(out: &mut Vec<BBox>, m: &Json)
    requires
        json::ok(m@),
        pack::near_boxes(old(out)@),
    ensures
        final(out)@ == old(out)@ + mark_room(m@),
        pack::near_boxes(final(out)@),
{
    let ghost o = out@;
    assert(o =~= o + Seq::<BBox>::empty());
    if let Some(at) = m.get("at") {
        if let Some(p) = read_point(at) {
            push_room(
                out,
                cut_box(
                    p.x as i128 - 635_000,
                    p.y as i128 - 508_000,
                    p.x as i128 + 635_000,
                    p.y as i128 + 508_000,
                ),
            );
        }
    }
}

fn longest_of(v: &Vec<String>) -> (r: u64)
    ensures
        r == geo::longest(text::views(v@)),
{
    let ghost vv = text::views(v@);
    let mut r: u64 = 0;
    let mut i: usize = 0;
    assert(vv.take(0) =~= Seq::empty());
    while i < v.len()
        invariant
            i <= v@.len(),
            vv == text::views(v@),
            r == geo::longest(vv.take(i as int)),
        decreases v@.len() - i,
    {
        assert(vv[i as int] == v@[i as int]@);
        assert(vv.take(i + 1).drop_last() =~= vv.take(i as int));
        assert(vv.take(i + 1).last() == vv[i as int]);
        let n = v[i].as_str().unicode_len() as u64;
        if n > r {
            r = n;
        }
        i += 1;
    }
    assert(vv.take(i as int) =~= vv);
    r
}

fn add_text_room(out: &mut Vec<BBox>, t: &Json)
    requires
        json::ok(t@),
        pack::near_boxes(old(out)@),
    ensures
        final(out)@ == old(out)@ + text_room(t@),
        pack::near_boxes(final(out)@),
{
    let ghost o = out@;
    assert(o =~= o + Seq::<BBox>::empty());
    if let Some(at) = t.get("at") {
        if let Some(p) = read_point(at) {
            let shown = text_of_key(t, "text", "");
            let lines = split(shown.as_str(), '\n');
            assert(text::views(lines@).len() == lines@.len());
            let w = longest_of(&lines);
            push_room(
                out,
                cut_box(
                    p.x as i128,
                    p.y as i128 - 254_000,
                    p.x as i128 + 120_650 * w as i128 + 127_000,
                    p.y as i128 + 254_000 * lines.len() as i128,
                ),
            );
        }
    }
}

/// The rooms that a design takes, as obstacles for what is added to it.
pub fn raw_boxes(raw: &Json, s: &Session, index: &SymbolIndex) -> (r: Vec<BBox>)
    requires
        json::ok(raw@),
        geo::library_ok(*s, *index),
    ensures
        r@ == rooms_of(json::entries_of(raw@), *s, *index),
        pack::near_boxes(r@),
{
    let d = object_of(raw);
    let ghost dv = json::entries_v(d@);
    let parts = list_of(&d, "parts");
    let ghost pv = json::values_v(parts@);
    let mut out: Vec<BBox> = Vec::new();
    let mut i: usize = 0;
    assert(out@ =~= part_rooms(pv, *s, *index, 0));
    while i < parts.len()
        invariant
            i <= parts@.len(),
            pv == json::values_v(parts@),
            json::all_ok(pv),
            geo::library_ok(*s, *index),
            pack::near_boxes(out@),
            out@ == part_rooms(pv, *s, *index, i as int),
        decreases parts@.len() - i,
    {
        assert(pv[i as int] == parts@[i as int]@);
        assert(json::ok(pv[i as int]));
        add_part_room(&mut out, &parts[i], s, index);
        i += 1;
    }
    let ghost o1 = out@;
    let wires = list_of(&d, "wires");
    let ghost wv = json::values_v(wires@);
    i = 0;
    assert(out@ =~= o1 + wire_rooms(wv, 0));
    while i < wires.len()
        invariant
            i <= wires@.len(),
            wv == json::values_v(wires@),
            json::all_ok(wv),
            pack::near_boxes(out@),
            out@ == o1 + wire_rooms(wv, i as int),
        decreases wires@.len() - i,
    {
        assert(wv[i as int] == wires@[i as int]@);
        assert(json::ok(wv[i as int]));
        add_wire_room(&mut out, &wires[i]);
        assert(out@ =~= o1 + wire_rooms(wv, i + 1));
        i += 1;
    }
    let ghost o2 = out@;
    let labels = list_of(&d, "labels");
    let ghost lv = json::values_v(labels@);
    i = 0;
    assert(out@ =~= o2 + mark_rooms(lv, 0));
    while i < labels.len()
        invariant
            i <= labels@.len(),
            lv == json::values_v(labels@),
            json::all_ok(lv),
            pack::near_boxes(out@),
            out@ == o2 + mark_rooms(lv, i as int),
        decreases labels@.len() - i,
    {
        assert(lv[i as int] == labels@[i as int]@);
        assert(json::ok(lv[i as int]));
        add_mark_room(&mut out, &labels[i]);
        assert(out@ =~= o2 + mark_rooms(lv, i + 1));
        i += 1;
    }
    let ghost o3 = out@;
    let power = list_of(&d, "power");
    let ghost qv = json::values_v(power@);
    i = 0;
    assert(out@ =~= o3 + mark_rooms(qv, 0));
    while i < power.len()
        invariant
            i <= power@.len(),
            qv == json::values_v(power@),
            json::all_ok(qv),
            pack::near_boxes(out@),
            out@ == o3 + mark_rooms(qv, i as int),
        decreases power@.len() - i,
    {
        assert(qv[i as int] == power@[i as int]@);
        assert(json::ok(qv[i as int]));
        add_mark_room(&mut out, &power[i]);
        assert(out@ =~= o3 + mark_rooms(qv, i + 1));
        i += 1;
    }
    let ghost o4 = out@;
    let texts = list_of(&d, "texts");
    let ghost tv = json::values_v(texts@);
    i = 0;
    assert(out@ =~= o4 + text_rooms(tv, 0));
    while i < texts.len()
        invariant
            i <= texts@.len(),
            tv == json::values_v(texts@),
            json::all_ok(tv),
            pack::near_boxes(out@),
            out@ == o4 + text_rooms(tv, i as int),
        decreases texts@.len() - i,
    {
        assert(tv[i as int] == texts@[i as int]@);
        assert(json::ok(tv[i as int]));
        add_text_room(&mut out, &texts[i]);
        assert(out@ =~= o4 + text_rooms(tv, i + 1));
        i += 1;
    }
    assert(pv.len() == parts@.len() && wv.len() == wires@.len() && lv.len() == labels@.len()
        && qv.len() == power@.len() && tv.len() == texts@.len());
    out
}

/// Notes among the first `n` messages, or what is no note.
pub open spec fn told(v: Seq<Seq<char>>, notes: bool, n: int) -> Seq<Seq<char>>
    decreases n,
{
    if n <= 0 {
        Seq::empty()
    } else if text::starts(v[n - 1], "note:"@) == notes {
        told(v, notes, n - 1).push(v[n - 1])
    } else {
        told(v, notes, n - 1)
    }
}

/// Splits messages into notes and faults.
pub fn split_messages(v: &Vec<String>) -> (r: (Vec<String>, Vec<String>))
    ensures
        text::views(r.0@) == told(text::views(v@), true, v@.len() as int),
        text::views(r.1@) == told(text::views(v@), false, v@.len() as int),
{
    let ghost vv = text::views(v@);
    let mut notes: Vec<String> = Vec::new();
    let mut hard: Vec<String> = Vec::new();
    let mut i: usize = 0;
    assert(text::views(notes@) =~= Seq::empty());
    assert(text::views(hard@) =~= Seq::empty());
    while i < v.len()
        invariant
            i <= v@.len(),
            vv == text::views(v@),
            text::views(notes@) == told(vv, true, i as int),
            text::views(hard@) == told(vv, false, i as int),
        decreases v@.len() - i,
    {
        assert(vv[i as int] == v@[i as int]@);
        if starts_with(v[i].as_str(), "note:") {
            let ghost b = text::views(notes@);
            notes.push(v[i].clone());
            assert(text::views(notes@) =~= b.push(vv[i as int]));
        } else {
            let ghost b = text::views(hard@);
            hard.push(v[i].clone());
            assert(text::views(hard@) =~= b.push(vv[i as int]));
        }
        i += 1;
    }
    (notes, hard)
}

/// No message is lost when messages are split.
pub proof fn splitting_keeps_every_message(v: Seq<Seq<char>>, n: int)
    requires
        0 <= n <= v.len(),
    ensures
        told(v, true, n).len() + told(v, false, n).len() == n,
    decreases n,
{
    if n > 0 {
        splitting_keeps_every_message(v, n - 1);
    }
}

// ---------------------------------------------------------------- an addition to a sheet
/// What is said of an added circuit that has no layout.
pub open spec fn layout_missing() -> Seq<char> {
    "the added circuit needs a \"layout\" (blocks with row/col trees) like a new design"@
}

/// What is said when no paper takes an added circuit.
pub open spec fn no_space() -> Seq<char> {
    "no free space for the new circuit even after enlarging the sheet; remove more of the old circuit first"@
}

/// The papers that an addition to a sheet is tried on.
pub open spec fn papers_of(own: Seq<char>) -> Seq<Seq<char>> {
    arrange::larger_papers(own, arrange::base_width(own), seq!["A4"@, "A3"@, "A2"@], 3)
}

/// The first trial at or behind the `i`-th that fits.
pub open spec fn first_fit(tried: Seq<Option<Geo>>, i: int) -> int
    decreases tried.len() - i,
{
    if 0 <= i < tried.len() && tried[i] is None {
        first_fit(tried, i + 1)
    } else {
        i
    }
}

/// A sheet after an addition, and what is said: unchanged where the circuit has no layout, where
/// its layout has faults, and where no paper takes it.
pub open spec fn with_circuit(
    raw: JsonV,
    has_layout: bool,
    messages: Seq<Seq<char>>,
    own: Seq<char>,
    tried: Seq<Option<Geo>>,
) -> (JsonV, Seq<Seq<char>>) {
    let i = first_fit(tried, 0);
    if !has_layout {
        (raw, seq![layout_missing()])
    } else if flexlayout::any_fault(messages) {
        (raw, messages)
    } else if i >= tried.len() {
        (raw, seq![no_space()])
    } else {
        (
            geo_json::with_drawing(raw, tried[i]->0@, papers_of(own)[i]),
            if papers_of(own)[i] == own {
                messages
            } else {
                messages.push(arrange::enlarged_note(own, papers_of(own)[i]))
            },
        )
    }
}

/// Adds a circuit to a sheet: `tried` holds, for each paper in turn, the circuit as it fits into
/// the free space there.
pub fn added_circuit(
    raw: &Json,
    has_layout: bool,
    messages: Vec<String>,
    own: &str,
    tried: &Vec<Option<Geo>>,
) -> (r: (Json, Vec<String>))
    requires
        json::ok(raw@),
        tried@.len() <= papers_of(own@).len(),
        forall|i: int|
            0 <= i < tried@.len() && tried@[i] is Some ==> (#[trigger] tried@[i])->0@.within(
                SHEET_MAX as int,
            ),
    ensures
        r.0@ == with_circuit(raw@, has_layout, text::views(messages@), own@, tried@).0,
        text::views(r.1@) == with_circuit(
            raw@,
            has_layout,
            text::views(messages@),
            own@,
            tried@,
        ).1,
        json::ok(r.0@),
        !has_layout || flexlayout::any_fault(text::views(messages@)) || (forall|i: int|
            0 <= i < tried@.len() ==> (#[trigger] tried@[i]) is None) ==> r.0@ == raw@,
{
    proof {
        lemma_first_fit(tried@, 0);
    }
    if !has_layout {
        let mut v: Vec<String> = Vec::new();
        v.push(
            "the added circuit needs a \"layout\" (blocks with row/col trees) like a new design".to_owned(),
        );
        assert(text::views(v@) =~= seq![layout_missing()]);
        return (raw.dup(), v);
    }
    if has_fault(&messages) {
        return (raw.dup(), messages);
    }
    let papers = papers_to_enlarge(own);
    let mut i: usize = 0;
    while i < tried.len()
        invariant
            i <= tried@.len(),
            first_fit(tried@, 0) == first_fit(tried@, i as int),
            has_layout,
            !flexlayout::any_fault(text::views(messages@)),
            text::views(papers@) == papers_of(own@),
            json::ok(raw@),
            tried@.len() <= papers_of(own@).len(),
            forall|i: int|
                0 <= i < tried@.len() && tried@[i] is Some ==> (#[trigger] tried@[i])->0@.within(
                    SHEET_MAX as int,
                ),
        decreases tried@.len() - i,
    {
        match &tried[i] {
            Some(g) => {
                assert(tried@[i as int]->0 == *g);
                assert(text::views(papers@)[i as int] == papers@[i as int]@);
                let used = papers[i].as_str();
                let mut v = messages;
                let ghost v0 = text::views(v@);
                if !same(used, own) {
                    v.push(note_of_enlarging(own, used));
                    assert(text::views(v@) =~= v0.push(arrange::enlarged_note(own@, used@)));
                }
                return (add_drawing(raw, g, used), v);
            },
            None => {},
        }
        i += 1;
    }
    let mut v: Vec<String> = Vec::new();
    v.push(
        "no free space for the new circuit even after enlarging the sheet; remove more of the old circuit first".to_owned(),
    );
    assert(text::views(v@) =~= seq![no_space()]);
    (raw.dup(), v)
}

proof fn lemma_first_fit(tried: Seq<Option<Geo>>, i: int)
    requires
        0 <= i <= tried.len(),
        forall|j: int| 0 <= j < i ==> (#[trigger] tried[j]) is None,
    ensures
        i <= first_fit(tried, i) <= tried.len(),
        forall|j: int| 0 <= j < first_fit(tried, i) ==> (#[trigger] tried[j]) is None,
        first_fit(tried, i) < tried.len() ==> tried[first_fit(tried, i)] is Some,
    decreases tried.len() - i,
{
    if i < tried.len() && tried[i] is None {
        lemma_first_fit(tried, i + 1);
    }
}

// ---------------------------------------------------------------- a new sheet
/// What is said when no paper takes a design.
pub open spec fn no_paper() -> Seq<char> {
    "design does not fit even on A2"@
}

/// The design of a laid-out circuit, and what is said: nothing where the layout has faults or where
/// no paper takes it, else the sheet on the first paper that does, with a note where that is not the
/// wanted one.
pub open spec fn with_paper(
    design: JsonV,
    messages: Seq<Seq<char>>,
    want: Seq<char>,
    papers: Seq<Seq<char>>,
    tried: Seq<Option<Geo>>,
) -> (JsonV, Seq<Seq<char>>) {
    let i = first_fit(tried, 0);
    if flexlayout::any_fault(messages) {
        (JsonV::Obj(Seq::empty()), messages)
    } else if i >= tried.len() {
        (JsonV::Obj(Seq::empty()), seq![no_paper()])
    } else {
        (
            JsonV::Obj(
                geo_json::headed(
                    order_map::put(
                        geo_json::geo_json(tried[i]->0@),
                        "paper"@,
                        JsonV::Str(papers[i]),
                    ),
                    design,
                    5,
                ),
            ),
            match arrange::paper_note(want, papers[i]) {
                Some(n) => messages.push(n),
                None => messages,
            },
        )
    }
}

/// The design of a laid-out circuit: `tried` holds, for each paper in turn, the circuit as it fits
/// there.
pub fn flex_design(
    design: &Json,
    messages: Vec<String>,
    want: &str,
    papers: &Vec<String>,
    tried: &Vec<Option<Geo>>,
) -> (r: (Json, Vec<String>))
    requires
        json::ok(design@),
        tried@.len() <= papers@.len(),
        forall|i: int|
            0 <= i < tried@.len() && tried@[i] is Some ==> (#[trigger] tried@[i])->0@.within(
                SHEET_MAX as int,
            ),
    ensures
        r.0@ == with_paper(
            design@,
            text::views(messages@),
            want@,
            text::views(papers@),
            tried@,
        ).0,
        text::views(r.1@) == with_paper(
            design@,
            text::views(messages@),
            want@,
            text::views(papers@),
            tried@,
        ).1,
        json::ok(r.0@),
{
    proof {
        lemma_first_fit(tried@, 0);
    }
    let fields: Vec<(String, Json)> = Vec::new();
    proof {
        json::lemma_obj_view(fields);
        assert(json::entries_v(fields@) =~= Seq::empty());
    }
    let none = Json::Obj(fields);
    if has_fault(&messages) {
        return (none, messages);
    }
    let mut i: usize = 0;
    while i < tried.len()
        invariant
            i <= tried@.len(),
            first_fit(tried@, 0) == first_fit(tried@, i as int),
            !flexlayout::any_fault(text::views(messages@)),
            json::ok(design@),
            tried@.len() <= papers@.len(),
            none@ == JsonV::Obj(Seq::empty()),
            forall|i: int|
                0 <= i < tried@.len() && tried@[i] is Some ==> (#[trigger] tried@[i])->0@.within(
                    SHEET_MAX as int,
                ),
        decreases tried@.len() - i,
    {
        match &tried[i] {
            Some(g) => {
                assert(tried@[i as int]->0 == *g);
                assert(text::views(papers@)[i as int] == papers@[i as int]@);
                let used = papers[i].as_str();
                let mut v = messages;
                let ghost v0 = text::views(v@);
                if let Some(n) = note_of_paper(want, used) {
                    let ghost nv = n@;
                    v.push(n);
                    assert(text::views(v@) =~= v0.push(nv));
                }
                return (sheet_design(g, used, design), v);
            },
            None => {},
        }
        i += 1;
    }
    let mut v: Vec<String> = Vec::new();
    v.push("design does not fit even on A2".to_owned());
    assert(text::views(v@) =~= seq![no_paper()]);
    (none, v)
}

// ---------------------------------------------------------------- reports
/// What one build produced.
#[derive(Debug)]
pub struct BuildReport {
    /// Faults; the build is clean where there is none.
    pub issues: Vec<String>,
    pub warnings: Vec<String>,
    pub notes: Vec<String>,
    /// Each net with its pins, names and pins in ascending order.
    pub netlist: Vec<(String, Vec<String>)>,
    pub paper: String,
    /// The laid-out design.
    pub raw: Json,
    /// The nets as text.
    pub netlist_lines: String,
    /// The sheet, where nothing stood in its way.
    pub sheet: Option<String>,
}

impl BuildReport {
    /// Whether nothing is wrong.
    pub fn is_clean(&self) -> (r: bool)
        ensures
            r == (self.issues@.len() == 0),
    {
        self.issues.len() == 0
    }

    /// The nets as text, those without a name of their own last.
    pub fn netlist_text(&self, limit: usize) -> (r: String)
        ensures
            r@ == report::netlist_as_text(netlist::nets_v(self.netlist@), limit as int),
    {
        report::netlist_text(&self.netlist, limit)
    }
}

pub open spec fn paper_of(raw: JsonV) -> Seq<char> {
    text_or(raw, "paper"@, "A4"@)
}

/// The report where the layout failed: its faults and notes, and nothing built.
pub fn failed_report(raw: Json, messages: &Vec<String>) -> (r: BuildReport)
    ensures
        text::views(r.issues@) == told(text::views(messages@), false, messages@.len() as int),
        text::views(r.notes@) == told(text::views(messages@), true, messages@.len() as int),
        r.warnings@.len() == 0,
        r.netlist@.len() == 0,
        report::tidy(netlist::nets_v(r.netlist@)),
        r.netlist_lines@.len() == 0,
        r.sheet is None,
        r.paper@ == paper_of(raw@),
        r.raw == raw,
{
    let (notes, hard) = split_messages(messages);
    let paper = text_of_key(&raw, "paper", "A4");
    BuildReport {
        issues: hard,
        warnings: Vec::new(),
        notes,
        netlist: Vec::new(),
        paper,
        raw,
        netlist_lines: String::new(),
        sheet: None,
    }
}

/// The report of a build, with the notes of the layout before it.
pub fn built_report(raw: Json, messages: &Vec<String>, b: Built) -> (r: BuildReport)
    requires
        report::tidy(netlist::nets_v(b.nets@)),
    ensures
        report::tidy(netlist::nets_v(r.netlist@)),
        r.issues == b.issues,
        r.warnings == b.warnings,
        r.netlist == b.nets,
        r.netlist_lines == b.netlist_text,
        r.sheet == b.sheet,
        text::views(r.notes@) == told(text::views(messages@), true, messages@.len() as int),
        r.paper@ == paper_of(raw@),
        r.raw == raw,
{
    let (notes, _) = split_messages(messages);
    let paper = text_of_key(&raw, "paper", "A4");
    BuildReport {
        issues: b.issues,
        warnings: b.warnings,
        notes,
        netlist: b.nets,
        paper,
        raw,
        netlist_lines: b.netlist_text,
        sheet: b.sheet,
    }
}

} // verus!
