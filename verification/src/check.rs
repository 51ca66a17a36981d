//! Checks of a compiled sheet: its geometry, its connections and the readability of its texts.
use crate::compile;
use crate::compile::{on_segment, Compiler, Key, PinRef, Shelf, StateV, Used};
use crate::geom;
use crate::geom::{BBox, Pt};
use crate::model;
use crate::model::{Design, DesignV, LabelV, PartV, PowerV};
use crate::model_json;
use crate::model_json::gu;
use crate::netlist;
use crate::number;
use crate::number::fmt_num;
use crate::pinref;
use crate::pinref::note;
use crate::readable;
use crate::symlib;
use crate::symlib::{mirror_of, rot_point};
use crate::text;
use crate::text::{join, same, starts_with, Line};
pub use crate::annotate::annotate_wires;
pub use crate::pinref::{pin_dir, resolve_pin_refs, PinMap, PinTable};
pub use crate::pipeline::{build, Built};
pub use crate::report::{erc_item, netlist_mismatch};
use vstd::prelude::*;

verus! {

// ---------------------------------------------------------------- the page
/// Width and height of a paper format; an unknown one counts as A4.
pub open spec fn paper_size(paper: Seq<char>) -> (int, int) {
    if paper == "A5"@ {
        (21_000_000, 14_800_000)
    } else if paper == "A4"@ {
        (29_700_000, 21_000_000)
    } else if paper == "A3"@ {
        (42_000_000, 29_700_000)
    } else if paper == "A2"@ {
        (59_400_000, 42_000_000)
    } else if paper == "A"@ || paper == "USLetter"@ {
        (27_940_000, 21_590_000)
    } else if paper == "B"@ {
        (43_180_000, 27_940_000)
    } else if paper == "USLegal"@ {
        (35_560_000, 21_590_000)
    } else {
        (29_700_000, 21_000_000)
    }
}

/// Width and height of a paper format.
pub fn paper_mm(paper: &str) -> (r: (i64, i64))
    ensures
        (r.0 as int, r.1 as int) == paper_size(paper@),
        14_800_000 <= r.0 <= 59_400_000,
        14_800_000 <= r.1 <= 59_400_000,
{
    if same(paper, "A5") {
        (21_000_000, 14_800_000)
    } else if same(paper, "A4") {
        (29_700_000, 21_000_000)
    } else if same(paper, "A3") {
        (42_000_000, 29_700_000)
    } else if same(paper, "A2") {
        (59_400_000, 42_000_000)
    } else if same(paper, "A") || same(paper, "USLetter") {
        (27_940_000, 21_590_000)
    } else if same(paper, "B") {
        (43_180_000, 27_940_000)
    } else if same(paper, "USLegal") {
        (35_560_000, 21_590_000)
    } else {
        (29_700_000, 21_000_000)
    }
}

/// A coordinate as messages show it: in grid steps.
pub open spec fn grid_text(v: int) -> Seq<char> {
    number::shown(model_json::to_grid(v) * 1000)
}

pub open spec fn point_text(p: Pt) -> Seq<char> {
    "("@ + grid_text(p.x as int) + ","@ + grid_text(p.y as int) + ")"@
}

/// A coordinate that a message can show.
pub open spec fn showable(v: int) -> bool {
    -2_200_000_000_000_000 <= v <= 2_200_000_000_000_000
}

fn grid_str(v: i64) -> (r: String)
    requires
        showable(v as int),
    ensures
        r@ == grid_text(v as int),
{
    fmt_num(gu(v) * 1000)
}

pub(crate) fn fmt_pt(p: Pt) -> (r: String)
    requires
        showable(p.x as int) && showable(p.y as int),
    ensures
        r@ == point_text(p),
{
    let x = grid_str(p.x);
    let y = grid_str(p.y);
    Line::of("(").add(x.as_str()).add(",").add(y.as_str()).add(")").done()
}

pub(crate) fn fmt_key(k: Key) -> (r: String)
    requires
        compile::key_ok(k),
    ensures
        r@ == point_text(k.point()),
{
    fmt_pt(k.xy())
}

// ---------------------------------------------------------------- geometry
/// An area, in whatever unit its users agree on.
pub struct AreaV {
    pub x0: int,
    pub y0: int,
    pub x1: int,
    pub y1: int,
}

#[derive(Debug, Clone, Copy)]
pub struct Area {
    pub x0: i128,
    pub y0: i128,
    pub x1: i128,
    pub y1: i128,
}

impl Area {
    pub open spec fn view(&self) -> AreaV {
        AreaV { x0: self.x0 as int, y0: self.y0 as int, x1: self.x1 as int, y1: self.y1 as int }
    }

    /// Room for a margin.
    pub open spec fn wf(&self) -> bool {
        &&& -0x4000_0000_0000_0000_0000_0000_0000_0000 <= self.x0
            <= 0x4000_0000_0000_0000_0000_0000_0000_0000
        &&& -0x4000_0000_0000_0000_0000_0000_0000_0000 <= self.y0
            <= 0x4000_0000_0000_0000_0000_0000_0000_0000
        &&& -0x4000_0000_0000_0000_0000_0000_0000_0000 <= self.x1
            <= 0x4000_0000_0000_0000_0000_0000_0000_0000
        &&& -0x4000_0000_0000_0000_0000_0000_0000_0000 <= self.y1
            <= 0x4000_0000_0000_0000_0000_0000_0000_0000
    }
}

/// Two areas share more than margins of `s` around each.
pub open spec fn overlapping(a: AreaV, b: AreaV, s: int) -> bool {
    !(a.x1 - s <= b.x0 + s || b.x1 - s <= a.x0 + s || a.y1 - s <= b.y0 + s || b.y1 - s <= a.y0 + s)
}

pub(crate) fn overlap(a: &Area, b: &Area, s: i128) -> (r: bool)
    requires
        a.wf(),
        b.wf(),
        0 <= s <= 0x1000_0000_0000_0000,
    ensures
        r == overlapping(a@, b@, s as int),
{
    !(a.x1 - s <= b.x0 + s || b.x1 - s <= a.x0 + s || a.y1 - s <= b.y0 + s || b.y1 - s <= a.y0 + s)
}

/// A box in units `k` times as fine.
pub open spec fn scaled(b: BBox, k: int) -> AreaV {
    AreaV { x0: b.x0 * k, y0: b.y0 * k, x1: b.x1 * k, y1: b.y1 * k }
}

pub(crate) fn scale(b: &BBox, k: i128) -> (r: Area)
    requires
        1 <= k <= 1000,
    ensures
        r@ == scaled(*b, k as int),
        r.wf(),
{
    let ghost m = 0x8000_0000_0000_0000int;
    assert(forall|v: int, q: int|
        -m <= v <= m && 1 <= q <= 1000 ==> -1000 * m <= #[trigger] (v * q) <= 1000 * m) by (nonlinear_arith)
        requires
            m == 0x8000_0000_0000_0000int,
    ;
    assert(-1000 * m <= b.x0 * k <= 1000 * m);
    assert(-1000 * m <= b.y0 * k <= 1000 * m);
    assert(-1000 * m <= b.x1 * k <= 1000 * m);
    assert(-1000 * m <= b.y1 * k <= 1000 * m);
    Area {
        x0: b.x0 as i128 * k,
        y0: b.y0 as i128 * k,
        x1: b.x1 as i128 * k,
        y1: b.y1 as i128 * k,
    }
}

/// A segment between keys runs through an area whose units are `k` times as fine as the sheet's,
/// more than `eps` inside it.
pub open spec fn crossing(a: Key, b: Key, bb: AreaV, k: int, eps: int) -> bool {
    let (x0, y0, x1, y1) = (bb.x0 + eps, bb.y0 + eps, bb.x1 - eps, bb.y1 - eps);
    let f = 1000 * k;
    if x0 >= x1 || y0 >= y1 {
        false
    } else if a.0 == b.0 {
        x0 < a.0 * f < x1 && geom::hi(a.1 as int, b.1 as int) * f > y0 && geom::lo(
            a.1 as int,
            b.1 as int,
        ) * f < y1
    } else if a.1 == b.1 {
        y0 < a.1 * f < y1 && geom::hi(a.0 as int, b.0 as int) * f > x0 && geom::lo(
            a.0 as int,
            b.0 as int,
        ) * f < x1
    } else {
        false
    }
}

pub(crate) fn seg_crosses_box(a: Key, b: Key, bb: &Area, k: i128, eps: i128) -> (r: bool)
    requires
        compile::key_ok(a),
        compile::key_ok(b),
        bb.wf(),
        1 <= k <= 1000,
        0 <= eps <= 0x1000_0000_0000_0000,
    ensures
        r == crossing(a, b, bb@, k as int, eps as int),
{
    let (x0, y0, x1, y1) = (bb.x0 + eps, bb.y0 + eps, bb.x1 - eps, bb.y1 - eps);
    let f: i128 = 1000 * k;
    if x0 >= x1 || y0 >= y1 {
        return false;
    }
    let ghost m = 1_200_000_000_000int;
    assert(forall|v: int, q: int|
        -m <= v <= m && 1 <= q <= 1_000_000 ==> -1_000_000 * m <= #[trigger] (v * q) <= 1_000_000
            * m) by (nonlinear_arith)
        requires
            m == 1_200_000_000_000int,
    ;
    assert(-1_000_000 * m <= a.0 * f <= 1_000_000 * m);
    assert(-1_000_000 * m <= a.1 * f <= 1_000_000 * m);
    assert(-1_000_000 * m <= b.0 * f <= 1_000_000 * m);
    assert(-1_000_000 * m <= b.1 * f <= 1_000_000 * m);
    if a.0 == b.0 {
        let x: i128 = a.0 as i128 * f;
        let top: i128 = geom::max_i(a.1, b.1) as i128 * f;
        let low: i128 = geom::min_i(a.1, b.1) as i128 * f;
        x0 < x && x < x1 && top > y0 && low < y1
    } else if a.1 == b.1 {
        let y: i128 = a.1 as i128 * f;
        let top: i128 = geom::max_i(a.0, b.0) as i128 * f;
        let low: i128 = geom::min_i(a.0, b.0) as i128 * f;
        y0 < y && y < y1 && top > x0 && low < x1
    } else {
        false
    }
}

/// Two segments cross at a point inside both, at right angles.
pub open spec fn cross_inside(a: Key, b: Key, c: Key, d: Key) -> bool {
    let va = geom::mag(a.0 - b.0) < 5;
    let vc = geom::mag(c.0 - d.0) < 5;
    let (p, q, r, s) = if va {
        (a, b, c, d)
    } else {
        (c, d, a, b)
    };
    &&& va != vc
    &&& geom::lo(p.1 as int, q.1 as int) + 5 < r.1 < geom::hi(p.1 as int, q.1 as int) - 5
    &&& geom::lo(r.0 as int, s.0 as int) + 5 < p.0 < geom::hi(r.0 as int, s.0 as int) - 5
}

pub(crate) fn segments_cross(a: Key, b: Key, c: Key, d: Key) -> (r: bool)
    requires
        compile::key_ok(a),
        compile::key_ok(b),
        compile::key_ok(c),
        compile::key_ok(d),
    ensures
        r == cross_inside(a, b, c, d),
{
    let va = -5 < a.0 - b.0 && a.0 - b.0 < 5;
    let vc = -5 < c.0 - d.0 && c.0 - d.0 < 5;
    if va == vc {
        return false;
    }
    let (p, q, u, v) = if va { (a, b, c, d) } else { (c, d, a, b) };
    let y = geom::min_i(p.1, q.1) + 5 < u.1 && u.1 < geom::max_i(p.1, q.1) - 5;
    let x = geom::min_i(u.0, v.0) + 5 < p.0 && p.0 < geom::max_i(u.0, v.0) - 5;
    y && x
}

// ---------------------------------------------------------------- boxes of symbols
/// The box of a turned symbol at a place of the sheet.
pub open spec fn symbol_box(u: Option<Used>, unit: int, at: Pt, rot: int, mirror: Seq<char>, body: bool) -> BBox {
    match u {
        Some(u) => symlib::turned_box(
            if body {
                u.info.unit_spec(unit).body
            } else {
                u.src.unit_spec(unit).bbox
            },
            at,
            rot,
            symlib::mirror_spec(mirror),
        ),
        None => BBox { x0: 0, y0: 0, x1: 0, y1: 0 },
    }
}

/// Looks at the symbols that a compiler knows.
pub struct Lookup {
    pub st: StateV,
    pub des: DesignV,
    pub shelf: Shelf,
}

impl Lookup {
    pub open spec fn symbol(self, lib: Seq<char>, name: Seq<char>) -> Option<Used> {
        compile::resolved(self.st, self.des, self.shelf, lib, name).1
    }

    pub open spec fn part_box(self, p: PartV, body: bool) -> BBox {
        symbol_box(self.symbol(p.lib, p.lib_name), p.unit, p.at, p.rot, p.mirror, body)
    }
}

fn place_box(bb: &BBox, at: Pt, rot: i32, mirror: &str) -> (b: BBox)
    requires
        symlib::near_box(*bb),
        compile::around_sheet(at.x as int, at.y as int),
    ensures
        b == symlib::turned_box(*bb, at, rot as int, symlib::mirror_spec(mirror@)),
        -2_300_000_000_000_000 <= b.x0 <= 2_300_000_000_000_000,
        -2_300_000_000_000_000 <= b.y0 <= 2_300_000_000_000_000,
        -2_300_000_000_000_000 <= b.x1 <= 2_300_000_000_000_000,
        -2_300_000_000_000_000 <= b.y1 <= 2_300_000_000_000_000,
        model::on_sheet(at) ==> showable_box(b),
{
    proof {
        reveal(symlib::turned_box);
    }
    let m = mirror_of(mirror);
    let p: (i64, i64) = rot_point(bb.x0, bb.y0, rot, m);
    let q: (i64, i64) = rot_point(bb.x1, bb.y1, rot, m);
    let r: (i64, i64) = rot_point(bb.x0, bb.y1, rot, m);
    let s: (i64, i64) = rot_point(bb.x1, bb.y0, rot, m);
    BBox {
        x0: at.x + geom::min_i(geom::min_i(p.0, q.0), geom::min_i(r.0, s.0)),
        y0: at.y + geom::min_i(geom::min_i(p.1, q.1), geom::min_i(r.1, s.1)),
        x1: at.x + geom::max_i(geom::max_i(p.0, q.0), geom::max_i(r.0, s.0)),
        y1: at.y + geom::max_i(geom::max_i(p.1, q.1), geom::max_i(r.1, s.1)),
    }
}

pub open spec fn showable_box(b: BBox) -> bool {
    showable(b.x0 as int) && showable(b.y0 as int) && showable(b.x1 as int) && showable(b.y1 as int)
}

/// A symbol on the sheet: its name, its box with pins and the box of its body.
#[derive(Debug)]
pub struct Placed {
    pub id: String,
    pub full: BBox,
    pub body: BBox,
}

#[verifier::ext_equal]
pub struct PlacedV {
    pub id: Seq<char>,
    pub full: BBox,
    pub body: BBox,
}

impl Placed {
    pub open spec fn view(&self) -> PlacedV {
        PlacedV { id: self.id@, full: self.full, body: self.body }
    }
}

pub open spec fn placed_v(v: Seq<Placed>) -> Seq<PlacedV> {
    Seq::new(v.len(), |i: int| v[i]@)
}

pub open spec fn placed_ok(v: Seq<Placed>) -> bool {
    forall|i: int|
        0 <= i < v.len() ==> showable_box((#[trigger] v[i]).full) && showable_box(v[i].body)
}

impl Lookup {
    pub open spec fn placed_part(self, p: PartV) -> PlacedV {
        PlacedV { id: p.id, full: self.part_box(p, false), body: self.part_box(p, true) }
    }

    /// The parts of the sheet.
    pub open spec fn placed_parts(self) -> Seq<PlacedV> {
        Seq::new(self.des.parts.len(), |i: int| self.placed_part(self.des.parts[i]))
    }

    /// A power symbol stands so that its first pin is at its point.
    pub open spec fn power_box(self, w: PowerV, u: Used) -> BBox {
        let d = if u.src.pins@.len() > 0 {
            symlib::turned(
                u.src.pins@[0].x as int,
                u.src.pins@[0].y as int,
                w.rot,
                symlib::mirror_spec(w.mirror),
            )
        } else {
            (0, 0)
        };
        let at = Pt { x: (w.at.x - d.0) as i64, y: (w.at.y - d.1) as i64 };
        symbol_box(Some(u), 1, at, w.rot, w.mirror, true)
    }

    /// Power symbols among the first `n` that are drawn, but for flags.
    pub open spec fn placed_power(self, n: int) -> Seq<PlacedV>
        decreases n,
    {
        if n <= 0 {
            Seq::empty()
        } else {
            let w = self.des.power[n - 1];
            match self.symbol(w.lib, Seq::empty()) {
                Some(u) => if w.net == "PWR_FLAG"@ {
                    self.placed_power(n - 1)
                } else {
                    let b = self.power_box(w, u);
                    self.placed_power(n - 1).push(
                        PlacedV {
                            id: if w.reference.len() == 0 {
                                w.net
                            } else {
                                w.reference
                            },
                            full: b,
                            body: b,
                        },
                    )
                },
                None => self.placed_power(n - 1),
            }
        }
    }
}

impl Compiler {
    pub open spec fn lookup(&self) -> Lookup {
        Lookup { st: self.state(), des: self.des@, shelf: self.shelf }
    }

    fn symbol_area(&self, k: usize) -> (r: Placed)
        requires
            self.wf(),
            k < self.des.parts@.len(),
        ensures
            r@ == self.lookup().placed_part(self.des@.parts[k as int]),
            showable_box(r.full) && showable_box(r.body),
    {
        let p = &self.des.parts[k];
        assert(self.des@.parts[k as int] == p@);
        assert(model::part_ok(self.des@.parts[k as int]));
        let r = match self.find_lib(p.lib.as_str(), p.lib_name.as_str()) {
            Some(u) => {
                let full = place_box(
                    &u.src.unit_info(p.unit).bbox,
                    p.at,
                    p.rot,
                    p.mirror.as_str(),
                );
                let body = place_box(
                    &u.info.unit_info(p.unit).body,
                    p.at,
                    p.rot,
                    p.mirror.as_str(),
                );
                Placed { id: p.id.clone(), full, body }
            },
            None => Placed {
                id: p.id.clone(),
                full: BBox { x0: 0, y0: 0, x1: 0, y1: 0 },
                body: BBox { x0: 0, y0: 0, x1: 0, y1: 0 },
            },
        };
        r
    }

    fn part_areas(&self) -> (r: Vec<Placed>)
        requires
            self.wf(),
        ensures
            placed_v(r@) == self.lookup().placed_parts(),
            placed_ok(r@),
    {
        let mut r: Vec<Placed> = Vec::new();
        let mut i: usize = 0;
        while i < self.des.parts.len()
            invariant
                i <= self.des.parts@.len(),
                self.wf(),
                r@.len() == i,
                forall|k: int|
                    0 <= k < i ==> (#[trigger] r@[k])@ == self.lookup().placed_part(
                        self.des@.parts[k],
                    ),
                placed_ok(r@),
            decreases self.des.parts@.len() - i,
        {
            r.push(self.symbol_area(i));
            i += 1;
        }
        assert(placed_v(r@) =~= self.lookup().placed_parts());
        r
    }

    fn power_areas(&self, out: &mut Vec<Placed>)
        requires
            self.wf(),
            placed_ok(old(out)@),
        ensures
            placed_v(final(out)@) == placed_v(old(out)@) + self.lookup().placed_power(
                self.des@.power.len() as int,
            ),
            placed_ok(final(out)@),
    {
        let ghost l = self.lookup();
        let ghost o0 = placed_v(out@);
        let mut i: usize = 0;
        assert(o0 =~= o0 + l.placed_power(0));
        while i < self.des.power.len()
            invariant
                i <= self.des.power@.len(),
                self.wf(),
                l == self.lookup(),
                placed_v(out@) == o0 + l.placed_power(i as int),
                placed_ok(out@),
            decreases self.des.power@.len() - i,
        {
            let w = &self.des.power[i];
            assert(l.des.power[i as int] == w@);
            assert(model::power_ok(l.des.power[i as int]));
            proof {
                reveal_strlit("");
                assert(""@ =~= Seq::<char>::empty());
            }
            let ghost o1 = placed_v(out@);
            match self.find_lib(w.lib.as_str(), "") {
                Some(u) => {
                    if !same(w.net.as_str(), "PWR_FLAG") {
                        let d: (i64, i64) = if u.src.pins.len() > 0 {
                            assert(symlib::pin_ok(u.src.pins@[0]));
                            rot_point(
                                u.src.pins[0].x,
                                u.src.pins[0].y,
                                w.rot,
                                mirror_of(w.mirror.as_str()),
                            )
                        } else {
                            (0, 0)
                        };
                        let at = Pt { x: w.at.x - d.0, y: w.at.y - d.1 };
                        let b = place_box(
                            &u.info.unit_info(1).body,
                            at,
                            w.rot,
                            w.mirror.as_str(),
                        );
                        assert(b == l.power_box(w@, u));
                        assert(showable_box(b)) by {
                            reveal(symlib::turned_box);
                            let bb = u.info.unit_spec(1).body;
                            let m = symlib::mirror_spec(w.mirror@);
                            symlib::lemma_turned(bb.x0 as int, bb.y0 as int, w.rot as int, m);
                            symlib::lemma_turned(bb.x1 as int, bb.y1 as int, w.rot as int, m);
                            symlib::lemma_turned(bb.x0 as int, bb.y1 as int, w.rot as int, m);
                            symlib::lemma_turned(bb.x1 as int, bb.y0 as int, w.rot as int, m);
                        }
                        let id = if w.reference.as_str().unicode_len() == 0 {
                            w.net.clone()
                        } else {
                            w.reference.clone()
                        };
                        let ghost pv = PlacedV { id: id@, full: b, body: b };
                        out.push(Placed { id, full: b, body: b });
                        assert(placed_v(out@) =~= o1.push(pv));
                        assert(placed_v(out@) =~= o0 + l.placed_power(i + 1));
                    }
                },
                None => {},
            }
            i += 1;
        }
    }
}

// ---------------------------------------------------------------- what stands where
pub open spec fn is_end(segs: Seq<(Key, Key)>, k: Key) -> bool {
    exists|i: int| 0 <= i < segs.len() && ((#[trigger] segs[i]).0 == k || segs[i].1 == k)
}

pub open spec fn on_any(segs: Seq<(Key, Key)>, k: Key) -> bool {
    exists|i: int|
        0 <= i < segs.len() && compile::inside_seg(k, (#[trigger] segs[i]).0, segs[i].1)
}

/// How many of the first `n` segments end at a point; one with both ends there counts twice.
pub open spec fn end_count(segs: Seq<(Key, Key)>, k: Key, n: int) -> int
    decreases n,
{
    if n <= 0 {
        0
    } else {
        end_count(segs, k, n - 1) + (if segs[n - 1].0 == k {
            1int
        } else {
            0
        }) + (if segs[n - 1].1 == k {
            1int
        } else {
            0
        })
    }
}

/// Points with labels, and the last label at each.
pub open spec fn label_points(labels: Seq<LabelV>, n: int) -> Seq<(Key, int)>
    decreases n,
{
    if n <= 0 {
        Seq::empty()
    } else {
        let v = label_points(labels, n - 1);
        let k = compile::key_spec(labels[n - 1].at);
        let i = compile::seek_key(v, k, 0);
        if i < v.len() {
            v.update(i, (k, n - 1))
        } else {
            v.push((k, n - 1))
        }
    }
}

/// What is on a sheet, by point.
pub struct SheetV {
    pub des: DesignV,
    pub pins: compile::PinsAtV,
    pub segs: Seq<(Key, Key)>,
    pub at: Seq<(Key, int)>,
    pub nc: Seq<Key>,
    pub parts: Seq<PlacedV>,
}

impl SheetV {
    pub open spec fn on_wire(self, k: Key) -> bool {
        is_end(self.segs, k) || on_any(self.segs, k)
    }

    pub open spec fn label_at(self, k: Key) -> bool {
        compile::seek_key(self.at, k, 0) < self.at.len()
    }

    pub open spec fn pins_at(self, k: Key) -> Seq<compile::PinRefV> {
        let i = compile::seek_key(self.pins, k, 0);
        if i < self.pins.len() {
            self.pins[i].1
        } else {
            Seq::empty()
        }
    }

    pub open spec fn pin_at(self, k: Key) -> bool {
        compile::seek_key(self.pins, k, 0) < self.pins.len()
    }
}

/// What is on a sheet, by point.
pub struct Sheet {
    pub pins: Vec<(Key, Vec<PinRef>)>,
    pub segs: Vec<(Key, Key)>,
    pub at: Vec<(Key, usize)>,
    pub nc: Vec<Key>,
    pub parts: Vec<Placed>,
}

impl Sheet {
    pub open spec fn sees(&self, des: Design) -> SheetV {
        SheetV {
            des: des@,
            pins: compile::pins_at_v(self.pins@),
            segs: self.segs@,
            at: netlist::at_v(self.at@),
            nc: self.nc@,
            parts: placed_v(self.parts@),
        }
    }

    pub open spec fn wf(&self, des: Design) -> bool {
        &&& des@.ok()
        &&& forall|i: int| 0 <= i < des@.wires.len() ==> (#[trigger] des@.wires[i]).len() > 0
        &&& compile::keys_ok(self.pins@)
        &&& compile::seg_keys_ok(self.segs@)
        &&& forall|i: int|
            0 <= i < self.at@.len() ==> compile::key_ok((#[trigger] self.at@[i]).0) && self.at@[i].1
                < des.labels@.len()
        &&& netlist::keys_fit(self.nc@)
        &&& placed_ok(self.parts@)
        &&& self.parts@.len() == des.parts@.len()
    }

    fn is_wire_end(&self, k: Key) -> (r: bool)
        ensures
            r == is_end(self.segs@, k),
    {
        let mut i: usize = 0;
        while i < self.segs.len()
            invariant
                i <= self.segs@.len(),
                forall|j: int|
                    0 <= j < i ==> (#[trigger] self.segs@[j]).0 != k && self.segs@[j].1 != k,
            decreases self.segs@.len() - i,
        {
            if self.segs[i].0 == k || self.segs[i].1 == k {
                assert(self.segs@[i as int].0 == k || self.segs@[i as int].1 == k);
                return true;
            }
            i += 1;
        }
        false
    }

    fn is_on_wire(&self, k: Key) -> (r: bool)
        requires
            compile::seg_keys_ok(self.segs@),
            compile::key_ok(k),
        ensures
            r == on_any(self.segs@, k),
    {
        let mut i: usize = 0;
        while i < self.segs.len()
            invariant
                i <= self.segs@.len(),
                compile::seg_keys_ok(self.segs@),
                compile::key_ok(k),
                forall|j: int|
                    0 <= j < i ==> !compile::inside_seg(
                        k,
                        (#[trigger] self.segs@[j]).0,
                        self.segs@[j].1,
                    ),
            decreases self.segs@.len() - i,
        {
            assert(compile::key_ok(self.segs@[i as int].0) && compile::key_ok(
                self.segs@[i as int].1,
            ));
            if on_segment(k, self.segs[i].0, self.segs[i].1) {
                assert(compile::inside_seg(k, self.segs@[i as int].0, self.segs@[i as int].1));
                return true;
            }
            i += 1;
        }
        false
    }

    fn ends_at(&self, k: Key) -> (r: u128)
        ensures
            r == end_count(self.segs@, k, self.segs@.len() as int),
    {
        let mut n: u128 = 0;
        let mut i: usize = 0;
        while i < self.segs.len()
            invariant
                i <= self.segs@.len(),
                n <= 2 * i,
                n == end_count(self.segs@, k, i as int),
            decreases self.segs@.len() - i,
        {
            if self.segs[i].0 == k {
                n += 1;
            }
            if self.segs[i].1 == k {
                n += 1;
            }
            i += 1;
        }
        n
    }

    fn has_label(&self, k: Key) -> (r: bool)
        ensures
            r == (compile::seek_key(netlist::at_v(self.at@), k, 0) < self.at@.len()),
    {
        let ghost v = netlist::at_v(self.at@);
        let mut i: usize = 0;
        while i < self.at.len()
            invariant
                i <= self.at@.len(),
                v == netlist::at_v(self.at@),
                compile::seek_key(v, k, 0) == compile::seek_key(v, k, i as int),
            decreases self.at@.len() - i,
        {
            assert(v[i as int].0 == self.at@[i as int].0);
            if self.at[i].0 == k {
                return true;
            }
            i += 1;
        }
        false
    }

    fn pin_place(&self, k: Key) -> (r: usize)
        ensures
            r == compile::seek_key(compile::pins_at_v(self.pins@), k, 0),
            r <= self.pins@.len(),
    {
        let ghost v = compile::pins_at_v(self.pins@);
        let mut i: usize = 0;
        while i < self.pins.len()
            invariant
                i <= self.pins@.len(),
                v == compile::pins_at_v(self.pins@),
                compile::seek_key(v, k, 0) == compile::seek_key(v, k, i as int),
            decreases self.pins@.len() - i,
        {
            assert(v[i as int].0 == self.pins@[i as int].0);
            if self.pins[i].0 == k {
                return i;
            }
            i += 1;
        }
        i
    }

    fn has_mark(&self, k: Key) -> (r: bool)
        ensures
            r == self.nc@.contains(k),
    {
        let mut i: usize = 0;
        while i < self.nc.len()
            invariant
                i <= self.nc@.len(),
                forall|j: int| 0 <= j < i ==> #[trigger] self.nc@[j] != k,
            decreases self.nc@.len() - i,
        {
            if self.nc[i] == k {
                return true;
            }
            i += 1;
        }
        false
    }
}

// ---------------------------------------------------------------- nearest points
pub struct NearV {
    pub best: Option<Key>,
    /// Its distance, in hundredths of a millimetre.
    pub d: int,
}

pub open spec fn steps(a: Key, b: Key) -> int {
    geom::mag(b.0 - a.0) + geom::mag(b.1 - a.1)
}

/// The nearest of the first `n` points other than `p` itself, within six grid steps.
pub open spec fn nearest_of(p: Key, v: Seq<Key>, n: int) -> NearV
    decreases n,
{
    if n <= 0 {
        NearV { best: None, d: 762 }
    } else {
        let s = nearest_of(p, v, n - 1);
        let d = steps(p, v[n - 1]);
        if 0 < d < s.d {
            NearV { best: Some(v[n - 1]), d }
        } else {
            s
        }
    }
}

fn nearest(p: Key, v: &Vec<Key>) -> (r: Option<Key>)
    requires
        compile::key_ok(p),
        netlist::keys_fit(v@),
    ensures
        r == nearest_of(p, v@, v@.len() as int).best,
        r is Some ==> compile::key_ok(r->0),
{
    let mut best: Option<Key> = None;
    let mut bd: i64 = 762;
    let mut i: usize = 0;
    while i < v.len()
        invariant
            i <= v@.len(),
            compile::key_ok(p),
            netlist::keys_fit(v@),
            best == nearest_of(p, v@, i as int).best,
            bd == nearest_of(p, v@, i as int).d,
            best is Some ==> compile::key_ok(best->0),
        decreases v@.len() - i,
    {
        let c = v[i];
        assert(compile::key_ok(v@[i as int]));
        let dx: i64 = if c.0 < p.0 { p.0 - c.0 } else { c.0 - p.0 };
        let dy: i64 = if c.1 < p.1 { p.1 - c.1 } else { c.1 - p.1 };
        let d: i64 = dx + dy;
        assert(d == steps(p, c));
        if d > 0 && d < bd {
            best = Some(c);
            bd = d;
        }
        i += 1;
    }
    best
}

/// First and last points of the first `n` wires.
pub open spec fn wire_ends(wires: Seq<Seq<Pt>>, n: int) -> Seq<Key>
    decreases n,
{
    if n <= 0 {
        Seq::empty()
    } else {
        let w = wires[n - 1];
        wire_ends(wires, n - 1).push(compile::key_spec(w[0])).push(compile::key_spec(w.last()))
    }
}

fn ends_of_wires(des: &Design) -> (r: Vec<Key>)
    requires
        des@.ok(),
        forall|i: int| 0 <= i < des@.wires.len() ==> (#[trigger] des@.wires[i]).len() > 0,
    ensures
        r@ == wire_ends(des@.wires, des@.wires.len() as int),
        netlist::keys_fit(r@),
{
    let mut r: Vec<Key> = Vec::new();
    let mut i: usize = 0;
    while i < des.wires.len()
        invariant
            i <= des.wires@.len(),
            des@.ok(),
            forall|i: int| 0 <= i < des@.wires.len() ==> (#[trigger] des@.wires[i]).len() > 0,
            r@ == wire_ends(des@.wires, i as int),
            netlist::keys_fit(r@),
        decreases des.wires@.len() - i,
    {
        let w = &des.wires[i];
        assert(des@.wires[i as int] == w@);
        assert(model::path_ok(des@.wires[i as int]));
        let n: usize = w.len();
        assert(model::on_sheet(w@[0]) && model::on_sheet(w@[n - 1]));
        r.push(Key::of(w[0]));
        r.push(Key::of(w[n - 1]));
        i += 1;
    }
    r
}

// ---------------------------------------------------------------- loose pins
pub open spec fn both_note(r: compile::PinRefV, k: Key) -> Seq<char> {
    r.owner + "."@ + r.number + " at "@ + point_text(k.point())
        + " has both a no-connect flag and a connection"@
}

pub open spec fn reach_hint(r: compile::PinRefV, near: Option<Key>) -> Seq<char> {
    match near {
        Some(e) => "; a wire end at "@ + point_text(e.point())
            + " is nearby - probably meant to reach this pin: use \""@ + r.owner + "."@ + r.number
            + "\" as the wire point"@,
        None => " (add a wire/label/power symbol at exactly this point, or an nc marker)"@,
    }
}

pub open spec fn loose_note(r: compile::PinRefV, k: Key, near: Option<Key>) -> Seq<char> {
    "pin "@ + r.owner + "."@ + r.number + " ("@ + r.etype + ") at "@ + point_text(k.point())
        + " is not connected to anything"@ + reach_hint(r, near)
}

/// What is wrong with a pin: it is marked and connected, or neither.
pub open spec fn pin_note(
    s: SheetV,
    ends: Seq<Key>,
    k: Key,
    refs: Seq<compile::PinRefV>,
    r: compile::PinRefV,
) -> Option<Seq<char>> {
    let connected = s.on_wire(k) || s.label_at(k) || refs.len() > 1;
    if text::starts(r.owner, "#"@) || r.etype == "no_connect"@ {
        None
    } else if s.nc.contains(k) {
        if connected {
            Some(both_note(r, k))
        } else {
            None
        }
    } else if connected {
        None
    } else {
        Some(loose_note(r, k, nearest_of(k, ends, ends.len() as int).best))
    }
}

pub open spec fn spot_notes(
    s: SheetV,
    ends: Seq<Key>,
    k: Key,
    refs: Seq<compile::PinRefV>,
    v: Seq<Seq<char>>,
    n: int,
) -> Seq<Seq<char>>
    decreases n,
{
    if n <= 0 {
        v
    } else {
        pinref::with_error(
            spot_notes(s, ends, k, refs, v, n - 1),
            pin_note(s, ends, k, refs, refs[n - 1]),
        )
    }
}

pub open spec fn pin_notes(s: SheetV, ends: Seq<Key>, v: Seq<Seq<char>>, n: int) -> Seq<Seq<char>>
    decreases n,
{
    if n <= 0 {
        v
    } else {
        let e = s.pins[n - 1];
        spot_notes(s, ends, e.0, e.1, pin_notes(s, ends, v, n - 1), e.1.len() as int)
    }
}

fn both_message(r: &PinRef, k: Key) -> (t: String)
    requires
        compile::key_ok(k),
    ensures
        t@ == both_note(r@, k),
{
    let p = fmt_key(k);
    Line::of(r.owner.as_str()).add(".").add(r.number.as_str()).add(" at ").add(p.as_str()).add(
        " has both a no-connect flag and a connection",
    ).done()
}

fn loose_message(r: &PinRef, k: Key, near: Option<Key>) -> (t: String)
    requires
        compile::key_ok(k),
        near is Some ==> compile::key_ok(near->0),
    ensures
        t@ == loose_note(r@, k, near),
{
    let hint = match near {
        Some(e) => {
            let p = fmt_key(e);
            Line::of("; a wire end at ").add(p.as_str()).add(
                " is nearby - probably meant to reach this pin: use \"",
            ).add(r.owner.as_str()).add(".").add(r.number.as_str()).add(
                "\" as the wire point",
            ).done()
        },
        None => {
            Line::of(
                " (add a wire/label/power symbol at exactly this point, or an nc marker)",
            ).done()
        },
    };
    let p = fmt_key(k);
    Line::of("pin ").add(r.owner.as_str()).add(".").add(r.number.as_str()).add(" (").add(
        r.etype.as_str(),
    ).add(") at ").add(p.as_str()).add(" is not connected to anything").add(hint.as_str()).done()
}

impl Sheet {
    fn touches_wire(&self, k: Key) -> (r: bool)
        requires
            compile::seg_keys_ok(self.segs@),
            compile::key_ok(k),
        ensures
            r == (is_end(self.segs@, k) || on_any(self.segs@, k)),
    {
        let a = self.is_wire_end(k);
        a || self.is_on_wire(k)
    }

    fn check_pin(&self, des: &Design, ends: &Vec<Key>, i: usize, j: usize) -> (r: Option<String>)
        requires
            self.wf(*des),
            netlist::keys_fit(ends@),
            i < self.pins@.len(),
            j < self.pins@[i as int].1@.len(),
        ensures
            text_v(r) == pin_note(
                self.sees(*des),
                ends@,
                self.pins@[i as int].0,
                compile::refs_v(self.pins@[i as int].1@),
                self.pins@[i as int].1@[j as int]@,
            ),
    {
        let k = self.pins[i].0;
        assert(compile::key_ok(self.pins@[i as int].0));
        let p = &self.pins[i].1[j];
        if starts_with(p.owner.as_str(), "#") || same(p.etype.as_str(), "no_connect") {
            return None;
        }
        let t = self.touches_wire(k);
        let l = self.has_label(k);
        let connected = t || l || self.pins[i].1.len() > 1;
        if self.has_mark(k) {
            if connected {
                return Some(both_message(p, k));
            }
            return None;
        }
        if connected {
            return None;
        }
        Some(loose_message(p, k, nearest(k, ends)))
    }

    fn check_pins(&self, des: &Design, ends: &Vec<Key>, out: &mut Vec<String>)
        requires
            self.wf(*des),
            netlist::keys_fit(ends@),
        ensures
            text::views(final(out)@) == pin_notes(
                self.sees(*des),
                ends@,
                text::views(old(out)@),
                self.pins@.len() as int,
            ),
    {
        let ghost s = self.sees(*des);
        let ghost o0 = text::views(out@);
        let mut i: usize = 0;
        while i < self.pins.len()
            invariant
                i <= self.pins@.len(),
                self.wf(*des),
                netlist::keys_fit(ends@),
                s == self.sees(*des),
                text::views(out@) == pin_notes(s, ends@, o0, i as int),
            decreases self.pins@.len() - i,
        {
            let ghost o1 = text::views(out@);
            let ghost k = self.pins@[i as int].0;
            let ghost refs = compile::refs_v(self.pins@[i as int].1@);
            assert(s.pins[i as int] == (k, refs));
            let mut j: usize = 0;
            while j < self.pins[i].1.len()
                invariant
                    i < self.pins@.len(),
                    j <= self.pins@[i as int].1@.len(),
                    self.wf(*des),
                    netlist::keys_fit(ends@),
                    s == self.sees(*des),
                    k == self.pins@[i as int].0,
                    refs == compile::refs_v(self.pins@[i as int].1@),
                    text::views(out@) == spot_notes(s, ends@, k, refs, o1, j as int),
                decreases self.pins@[i as int].1@.len() - j,
            {
                assert(refs[j as int] == self.pins@[i as int].1@[j as int]@);
                let e = self.check_pin(des, ends, i, j);
                note(out, e);
                j += 1;
            }
            i += 1;
        }
    }
}

pub open spec fn text_v(t: Option<String>) -> Option<Seq<char>> {
    match t {
        Some(x) => Some(x@),
        None => None,
    }
}

// ---------------------------------------------------------------- loose wire ends
/// Pins at a point, as `U1.12`.
pub open spec fn ref_names(refs: Seq<compile::PinRefV>) -> Seq<Seq<char>> {
    Seq::new(refs.len(), |i: int| refs[i].owner + "."@ + refs[i].number)
}

pub open spec fn pin_hint(s: SheetV, near: Option<Key>) -> Seq<char> {
    match near {
        Some(k) => {
            let v = ref_names(s.pins_at(k));
            "; nearest pin "@ + text::joined(v, ", "@) + " is at "@ + point_text(k.point())
                + " - use \""@ + v[0] + "\" as the wire point"@
        },
        None => Seq::empty(),
    }
}

pub open spec fn dangling(s: SheetV, k: Key) -> bool {
    !(s.pin_at(k) || s.label_at(k) || s.nc.contains(k) || end_count(
        s.segs,
        k,
        s.segs.len() as int,
    ) >= 2 || on_any(s.segs, k))
}

pub open spec fn end_note(s: SheetV, k: Key) -> Option<Seq<char>> {
    if dangling(s, k) {
        let keys = netlist::pin_keys(s.pins);
        Some(
            "wire end at "@ + point_text(k.point()) + " is dangling (connects to nothing)"@
                + pin_hint(s, nearest_of(k, keys, keys.len() as int).best),
        )
    } else {
        None
    }
}

pub open spec fn end_notes(s: SheetV, ends: Seq<Key>, v: Seq<Seq<char>>, n: int) -> Seq<Seq<char>>
    decreases n,
{
    if n <= 0 {
        v
    } else {
        pinref::with_error(end_notes(s, ends, v, n - 1), end_note(s, ends[n - 1]))
    }
}

fn names_of_refs(refs: &Vec<PinRef>) -> (r: Vec<String>)
    ensures
        text::views(r@) == ref_names(compile::refs_v(refs@)),
{
    let mut r: Vec<String> = Vec::new();
    let ghost rv = compile::refs_v(refs@);
    let ghost want = ref_names(rv);
    let mut i: usize = 0;
    while i < refs.len()
        invariant
            i <= refs@.len(),
            rv == compile::refs_v(refs@),
            want == ref_names(rv),
            r@.len() == i,
            forall|k: int| 0 <= k < i ==> (#[trigger] r@[k])@ == want[k],
        decreases refs@.len() - i,
    {
        assert(rv[i as int] == refs@[i as int]@);
        let t = Line::of(refs[i].owner.as_str()).add(".").add(refs[i].number.as_str()).done();
        assert(t@ == want[i as int]);
        r.push(t);
        i += 1;
    }
    assert(text::views(r@) =~= want);
    r
}

/// Every point with pins has at least one.
pub open spec fn no_bare_spots(pins: compile::PinsAtV) -> bool {
    forall|i: int| 0 <= i < pins.len() ==> (#[trigger] pins[i]).1.len() > 0
}

proof fn lemma_nearest_among(p: Key, v: Seq<Key>, n: int)
    requires
        0 <= n <= v.len(),
    ensures
        nearest_of(p, v, n).best is Some ==> v.contains(nearest_of(p, v, n).best->0),
    decreases n,
{
    if n > 0 {
        lemma_nearest_among(p, v, n - 1);
        assert(v.contains(v[n - 1]));
    }
}

proof fn lemma_seek_contained<T>(v: Seq<(Key, T)>, k: Key, i: int, j: int)
    requires
        0 <= i <= j < v.len(),
        v[j].0 == k,
    ensures
        i <= compile::seek_key(v, k, i) <= j,
    decreases j - i,
{
    if v[i].0 != k {
        lemma_seek_contained(v, k, i + 1, j);
    }
}

impl Sheet {
    fn keys_of_pins(&self) -> (r: Vec<Key>)
        requires
            compile::keys_ok(self.pins@),
        ensures
            r@ == netlist::pin_keys(compile::pins_at_v(self.pins@)),
            netlist::keys_fit(r@),
    {
        let mut r: Vec<Key> = Vec::new();
        let mut i: usize = 0;
        while i < self.pins.len()
            invariant
                i <= self.pins@.len(),
                compile::keys_ok(self.pins@),
                r@.len() == i,
                forall|k: int|
                    0 <= k < i ==> #[trigger] r@[k] == self.pins@[k].0 && compile::key_ok(r@[k]),
            decreases self.pins@.len() - i,
        {
            assert(compile::key_ok(self.pins@[i as int].0));
            r.push(self.pins[i].0);
            i += 1;
        }
        assert(r@ =~= netlist::pin_keys(compile::pins_at_v(self.pins@)));
        r
    }

    fn check_end(&self, des: &Design, keys: &Vec<Key>, k: Key) -> (r: Option<String>)
        requires
            self.wf(*des),
            compile::key_ok(k),
            keys@ == netlist::pin_keys(compile::pins_at_v(self.pins@)),
            netlist::keys_fit(keys@),
            no_bare_spots(compile::pins_at_v(self.pins@)),
        ensures
            text_v(r) == end_note(self.sees(*des), k),
    {
        let ghost s = self.sees(*des);
        let known = self.pin_place(k) < self.pins.len();
        let l = self.has_label(k);
        let m = self.has_mark(k);
        let two = self.ends_at(k) >= 2;
        if known || l || m || two || self.is_on_wire(k) {
            return None;
        }
        let near = nearest(k, keys);
        proof {
            lemma_nearest_among(k, keys@, keys@.len() as int);
        }
        let hint = match near {
            Some(e) => {
                proof {
                    let j = choose|j: int| 0 <= j < keys@.len() && keys@[j] == e;
                    lemma_seek_contained(s.pins, e, 0, j);
                }
                let i: usize = self.pin_place(e);
                assert(s.pins[i as int] == (
                    self.pins@[i as int].0,
                    compile::refs_v(self.pins@[i as int].1@),
                ));
                assert(s.pins[i as int].1.len() > 0);
                let v = names_of_refs(&self.pins[i].1);
                let ghost vv = text::views(v@);
                assert(vv.len() == v@.len());
                assert(vv[0] == v@[0]@);
                let list = join(&v, ", ");
                let p = fmt_key(e);
                Line::of("; nearest pin ").add(list.as_str()).add(" is at ").add(p.as_str()).add(
                    " - use \"",
                ).add(v[0].as_str()).add("\" as the wire point").done()
            },
            None => {
                let t = String::new();
                assert(t@ =~= Seq::<char>::empty());
                t
            },
        };
        assert(hint@ == pin_hint(s, near));
        let p = fmt_key(k);
        Some(
            Line::of("wire end at ").add(p.as_str()).add(
                " is dangling (connects to nothing)",
            ).add(hint.as_str()).done(),
        )
    }

    fn check_ends(&self, des: &Design, ends: &Vec<Key>, out: &mut Vec<String>)
        requires
            self.wf(*des),
            netlist::keys_fit(ends@),
            no_bare_spots(compile::pins_at_v(self.pins@)),
        ensures
            text::views(final(out)@) == end_notes(
                self.sees(*des),
                ends@,
                text::views(old(out)@),
                ends@.len() as int,
            ),
    {
        let ghost s = self.sees(*des);
        let ghost o0 = text::views(out@);
        let keys = self.keys_of_pins();
        let mut i: usize = 0;
        while i < ends.len()
            invariant
                i <= ends@.len(),
                self.wf(*des),
                netlist::keys_fit(ends@),
                netlist::keys_fit(keys@),
                keys@ == netlist::pin_keys(compile::pins_at_v(self.pins@)),
                no_bare_spots(compile::pins_at_v(self.pins@)),
                s == self.sees(*des),
                text::views(out@) == end_notes(s, ends@, o0, i as int),
            decreases ends@.len() - i,
        {
            assert(compile::key_ok(ends@[i as int]));
            let e = self.check_end(des, &keys, ends[i]);
            note(out, e);
            i += 1;
        }
    }
}

// ---------------------------------------------------------------- loose labels, symbols and marks
pub open spec fn label_note(s: SheetV, e: (Key, int)) -> Option<Seq<char>> {
    if s.pin_at(e.0) || s.on_wire(e.0) {
        None
    } else {
        Some(
            "label '"@ + s.des.labels[e.1].text + "' at "@ + point_text(e.0.point())
                + " is floating - it must sit exactly on a wire end or pin"@,
        )
    }
}

pub open spec fn label_notes(s: SheetV, v: Seq<Seq<char>>, n: int) -> Seq<Seq<char>>
    decreases n,
{
    if n <= 0 {
        v
    } else {
        pinref::with_error(label_notes(s, v, n - 1), label_note(s, s.at[n - 1]))
    }
}

pub open spec fn power_note(s: SheetV, w: PowerV) -> Option<Seq<char>> {
    let k = compile::key_spec(w.at);
    if s.pins_at(k).len() > 1 || s.on_wire(k) || s.label_at(k) {
        None
    } else {
        Some(
            "power symbol "@ + w.net + " at "@ + point_text(k.point())
                + " is not connected to anything"@,
        )
    }
}

pub open spec fn power_notes(s: SheetV, v: Seq<Seq<char>>, n: int) -> Seq<Seq<char>>
    decreases n,
{
    if n <= 0 {
        v
    } else {
        pinref::with_error(power_notes(s, v, n - 1), power_note(s, s.des.power[n - 1]))
    }
}

pub open spec fn mark_note(s: SheetV, k: Key) -> Option<Seq<char>> {
    if s.pin_at(k) {
        None
    } else {
        Some("no-connect marker at "@ + point_text(k.point()) + " is not on a pin"@)
    }
}

pub open spec fn mark_notes(s: SheetV, v: Seq<Seq<char>>, n: int) -> Seq<Seq<char>>
    decreases n,
{
    if n <= 0 {
        v
    } else {
        pinref::with_error(mark_notes(s, v, n - 1), mark_note(s, s.nc[n - 1]))
    }
}

/// A wire that is neither level nor upright, by more than a hundredth.
pub open spec fn slant_note(e: (Key, Key)) -> Option<Seq<char>> {
    if geom::mag(e.0.0 - e.1.0) > 1 && geom::mag(e.0.1 - e.1.1) > 1 {
        Some(
            "diagonal wire "@ + point_text(e.0.point()) + "-"@ + point_text(e.1.point())
                + ": use only horizontal/vertical segments"@,
        )
    } else {
        None
    }
}

pub open spec fn slant_notes(s: SheetV, v: Seq<Seq<char>>, n: int) -> Seq<Seq<char>>
    decreases n,
{
    if n <= 0 {
        v
    } else {
        pinref::with_error(slant_notes(s, v, n - 1), slant_note(s.segs[n - 1]))
    }
}

impl Sheet {
    fn check_labels(&self, des: &Design, out: &mut Vec<String>)
        requires
            self.wf(*des),
        ensures
            text::views(final(out)@) == label_notes(
                self.sees(*des),
                text::views(old(out)@),
                self.at@.len() as int,
            ),
    {
        let ghost s = self.sees(*des);
        let ghost o0 = text::views(out@);
        let mut i: usize = 0;
        while i < self.at.len()
            invariant
                i <= self.at@.len(),
                self.wf(*des),
                s == self.sees(*des),
                text::views(out@) == label_notes(s, o0, i as int),
            decreases self.at@.len() - i,
        {
            let (k, l) = self.at[i];
            assert(s.at[i as int] == (k, l as int));
            assert(compile::key_ok(self.at@[i as int].0) && l < des.labels@.len());
            let pin = self.pin_place(k) < self.pins.len();
            if !(pin || self.touches_wire(k)) {
                assert(s.des.labels[l as int] == des.labels@[l as int]@);
                let p = fmt_key(k);
                let t = Line::of("label '").add(des.labels[l].text.as_str()).add("' at ").add(
                    p.as_str(),
                ).add(" is floating - it must sit exactly on a wire end or pin").done();
                note(out, Some(t));
            }
            i += 1;
        }
    }

    fn check_power(&self, des: &Design, out: &mut Vec<String>)
        requires
            self.wf(*des),
        ensures
            text::views(final(out)@) == power_notes(
                self.sees(*des),
                text::views(old(out)@),
                des@.power.len() as int,
            ),
    {
        let ghost s = self.sees(*des);
        let ghost o0 = text::views(out@);
        let mut i: usize = 0;
        while i < des.power.len()
            invariant
                i <= des.power@.len(),
                self.wf(*des),
                s == self.sees(*des),
                text::views(out@) == power_notes(s, o0, i as int),
            decreases des.power@.len() - i,
        {
            let w = &des.power[i];
            assert(s.des.power[i as int] == w@);
            assert(model::power_ok(s.des.power[i as int]));
            let k = Key::of(w.at);
            let j: usize = self.pin_place(k);
            let many = if j < self.pins.len() {
                assert(s.pins[j as int].1 == compile::refs_v(self.pins@[j as int].1@));
                self.pins[j].1.len() > 1
            } else {
                false
            };
            let t = self.touches_wire(k);
            if !(many || t || self.has_label(k)) {
                let p = fmt_key(k);
                let t = Line::of("power symbol ").add(w.net.as_str()).add(" at ").add(
                    p.as_str(),
                ).add(" is not connected to anything").done();
                note(out, Some(t));
            }
            i += 1;
        }
    }

    fn check_marks(&self, des: &Design, out: &mut Vec<String>)
        requires
            self.wf(*des),
        ensures
            text::views(final(out)@) == mark_notes(
                self.sees(*des),
                text::views(old(out)@),
                self.nc@.len() as int,
            ),
    {
        let ghost s = self.sees(*des);
        let ghost o0 = text::views(out@);
        let mut i: usize = 0;
        while i < self.nc.len()
            invariant
                i <= self.nc@.len(),
                self.wf(*des),
                s == self.sees(*des),
                text::views(out@) == mark_notes(s, o0, i as int),
            decreases self.nc@.len() - i,
        {
            let k = self.nc[i];
            assert(compile::key_ok(self.nc@[i as int]));
            if self.pin_place(k) >= self.pins.len() {
                let p = fmt_key(k);
                let t = Line::of("no-connect marker at ").add(p.as_str()).add(
                    " is not on a pin",
                ).done();
                note(out, Some(t));
            }
            i += 1;
        }
    }

    fn check_slants(&self, des: &Design, out: &mut Vec<String>)
        requires
            self.wf(*des),
        ensures
            text::views(final(out)@) == slant_notes(
                self.sees(*des),
                text::views(old(out)@),
                self.segs@.len() as int,
            ),
    {
        let ghost s = self.sees(*des);
        let ghost o0 = text::views(out@);
        let mut i: usize = 0;
        while i < self.segs.len()
            invariant
                i <= self.segs@.len(),
                self.wf(*des),
                s == self.sees(*des),
                text::views(out@) == slant_notes(s, o0, i as int),
            decreases self.segs@.len() - i,
        {
            let (a, b) = self.segs[i];
            assert(compile::key_ok(self.segs@[i as int].0) && compile::key_ok(
                self.segs@[i as int].1,
            ));
            let dx: i64 = a.0 - b.0;
            let dy: i64 = a.1 - b.1;
            if (dx > 1 || dx < -1) && (dy > 1 || dy < -1) {
                let p = fmt_key(a);
                let q = fmt_key(b);
                let t = Line::of("diagonal wire ").add(p.as_str()).add("-").add(q.as_str()).add(
                    ": use only horizontal/vertical segments",
                ).done();
                note(out, Some(t));
            }
            i += 1;
        }
    }
}

// ---------------------------------------------------------------- symbols and bodies
pub open spec fn page_note(des: DesignV, p: PartV, b: BBox) -> Option<Seq<char>> {
    let (w, h) = paper_size(des.paper);
    if b.x0 < 1_000_000 || b.y0 < 1_000_000 || b.x1 > w - 1_000_000 || b.y1 > h - 2_500_000 {
        Some(
            p.id + " at "@ + point_text(p.at)
                + " extends outside the drawable page area (keep x in 10.."@ + text::numeral(
                (w - 1_000_000) / 127_000,
            ) + ", y in 10.."@ + text::numeral((h - 2_500_000) / 127_000) + " grid units)"@,
        )
    } else {
        None
    }
}

pub open spec fn page_notes(s: SheetV, v: Seq<Seq<char>>, n: int) -> Seq<Seq<char>>
    decreases n,
{
    if n <= 0 {
        v
    } else {
        pinref::with_error(
            page_notes(s, v, n - 1),
            page_note(s.des, s.des.parts[n - 1], s.parts[n - 1].full),
        )
    }
}

pub open spec fn span_text(b: BBox) -> Seq<char> {
    " (x "@ + grid_text(b.x0 as int) + ".."@ + grid_text(b.x1 as int) + ", y "@ + grid_text(
        b.y0 as int,
    ) + ".."@ + grid_text(b.y1 as int) + ")"@
}

/// Bodies may not overlap, nor a body and the other's pins; pin tips may touch.
pub open spec fn clash_note(a: PlacedV, b: PlacedV) -> Option<Seq<char>> {
    let (af, ab, bf, bb) = (
        scaled(a.full, 1),
        scaled(a.body, 1),
        scaled(b.full, 1),
        scaled(b.body, 1),
    );
    if overlapping(ab, bb, 30_000) || overlapping(ab, bf, 30_000) || overlapping(af, bb, 30_000) {
        Some(
            a.id + span_text(a.full) + " and "@ + b.id + span_text(b.full)
                + " overlap - move them apart"@,
        )
    } else {
        None
    }
}

/// Clashes of symbol `i` with those from `i + 1` up to `n`.
pub open spec fn row_clashes(all: Seq<PlacedV>, i: int, v: Seq<Seq<char>>, n: int) -> Seq<Seq<char>>
    decreases n - i,
{
    if n <= i + 1 {
        v
    } else {
        pinref::with_error(row_clashes(all, i, v, n - 1), clash_note(all[i], all[n - 1]))
    }
}

pub open spec fn clash_notes(all: Seq<PlacedV>, v: Seq<Seq<char>>, n: int) -> Seq<Seq<char>>
    decreases n,
{
    if n <= 0 {
        v
    } else {
        row_clashes(all, n - 1, clash_notes(all, v, n - 1), all.len() as int)
    }
}

/// The first part from `i` on whose body a wire runs through.
pub open spec fn body_hit(parts: Seq<PlacedV>, e: (Key, Key), i: int) -> int
    decreases parts.len() - i,
{
    if i < 0 || i >= parts.len() {
        parts.len() as int
    } else if crossing(e.0, e.1, scaled(parts[i].body, 1), 1, 100_000) {
        i
    } else {
        body_hit(parts, e, i + 1)
    }
}

pub open spec fn through_note(s: SheetV, e: (Key, Key)) -> Option<Seq<char>> {
    let i = body_hit(s.parts, e, 0);
    if i < s.parts.len() {
        let b = s.parts[i].body;
        Some(
            "wire "@ + point_text(e.0.point()) + "-"@ + point_text(e.1.point())
                + " passes through the body of "@ + s.parts[i].id + " (body x "@ + grid_text(
                b.x0 as int,
            ) + ".."@ + grid_text(b.x1 as int) + ", y "@ + grid_text(b.y0 as int) + ".."@
                + grid_text(b.y1 as int) + ")"@,
        )
    } else {
        None
    }
}

pub open spec fn through_notes(s: SheetV, v: Seq<Seq<char>>, n: int) -> Seq<Seq<char>>
    decreases n,
{
    if n <= 0 {
        v
    } else {
        pinref::with_error(through_notes(s, v, n - 1), through_note(s, s.segs[n - 1]))
    }
}

/// Roughly where the text of a label stands.
pub open spec fn label_area(l: LabelV, k: Key) -> AreaV {
    let p = k.point();
    let len = 114_300 * l.text.len() + 150_000;
    if l.rot == 0 || l.rot == 180 {
        AreaV {
            x0: p.x - (if l.rot == 180 {
                len
            } else {
                0
            }),
            y0: p.y - 160_000,
            x1: p.x + (if l.rot == 180 {
                0
            } else {
                len
            }),
            y1: p.y + 20_000,
        }
    } else {
        AreaV {
            x0: p.x - 160_000,
            y0: p.y - (if l.rot == 90 {
                len
            } else {
                0
            }),
            x1: p.x + 20_000,
            y1: p.y + (if l.rot == 90 {
                0
            } else {
                len
            }),
        }
    }
}

/// The first part from `i` on whose body an area overlaps, but for the part `own`.
pub open spec fn area_hit(
    parts: Seq<PlacedV>,
    a: AreaV,
    own: Option<Seq<char>>,
    k: int,
    margin: int,
    i: int,
) -> int
    decreases parts.len() - i,
{
    if i < 0 || i >= parts.len() {
        parts.len() as int
    } else if own != Some(parts[i].id) && overlapping(a, scaled(parts[i].body, k), margin) {
        i
    } else {
        area_hit(parts, a, own, k, margin, i + 1)
    }
}

pub open spec fn cover_note(s: SheetV, e: (Key, int)) -> Option<Seq<char>> {
    let l = s.des.labels[e.1];
    let i = area_hit(s.parts, label_area(l, e.0), None, 1, 20_000, 0);
    if i < s.parts.len() {
        Some(
            "label '"@ + l.text + "' at "@ + point_text(e.0.point()) + " (rot "@ + text::numeral(
                l.rot,
            ) + ") overlaps the body of "@ + s.parts[i].id
                + "; rotate it to point away from the symbol or move it"@,
        )
    } else {
        None
    }
}

pub open spec fn cover_notes(s: SheetV, v: Seq<Seq<char>>, n: int) -> Seq<Seq<char>>
    decreases n,
{
    if n <= 0 {
        v
    } else {
        pinref::with_error(cover_notes(s, v, n - 1), cover_note(s, s.at[n - 1]))
    }
}

fn add_span(l: Line, b: &BBox) -> (r: Line)
    requires
        showable_box(*b),
    ensures
        r@ == l@ + span_text(*b),
{
    let x0 = grid_str(b.x0);
    let x1 = grid_str(b.x1);
    let y0 = grid_str(b.y0);
    let y1 = grid_str(b.y1);
    let t = Line::of(" (x ").add(x0.as_str()).add("..").add(x1.as_str()).add(", y ").add(
        y0.as_str(),
    ).add("..").add(y1.as_str()).add(")").done();
    l.add(t.as_str())
}

fn check_clash(a: &Placed, b: &Placed) -> (r: Option<String>)
    requires
        showable_box(a.full) && showable_box(a.body),
        showable_box(b.full) && showable_box(b.body),
    ensures
        text_v(r) == clash_note(a@, b@),
{
    let af = scale(&a.full, 1);
    let ab = scale(&a.body, 1);
    let bf = scale(&b.full, 1);
    let bb = scale(&b.body, 1);
    if overlap(&ab, &bb, 30_000) || overlap(&ab, &bf, 30_000) || overlap(&af, &bb, 30_000) {
        let l = Line::of(a.id.as_str());
        let l = add_span(l, &a.full).add(" and ").add(b.id.as_str());
        Some(add_span(l, &b.full).add(" overlap - move them apart").done())
    } else {
        None
    }
}

fn check_clashes(all: &Vec<Placed>, out: &mut Vec<String>)
    requires
        placed_ok(all@),
    ensures
        text::views(final(out)@) == clash_notes(
            placed_v(all@),
            text::views(old(out)@),
            all@.len() as int,
        ),
{
    let ghost av = placed_v(all@);
    let ghost o0 = text::views(out@);
    let mut i: usize = 0;
    while i < all.len()
        invariant
            i <= all@.len(),
            placed_ok(all@),
            av == placed_v(all@),
            text::views(out@) == clash_notes(av, o0, i as int),
        decreases all@.len() - i,
    {
        let ghost o1 = text::views(out@);
        let mut j: usize = i + 1;
        while j < all.len()
            invariant
                i < j,
                j <= all@.len(),
                placed_ok(all@),
                av == placed_v(all@),
                text::views(out@) == row_clashes(av, i as int, o1, j as int),
            decreases all@.len() - j,
        {
            assert(av[i as int] == all@[i as int]@ && av[j as int] == all@[j as int]@);
            assert(showable_box(all@[i as int].full) && showable_box(all@[j as int].full));
            let e = check_clash(&all[i], &all[j]);
            note(out, e);
            j += 1;
        }
        i += 1;
    }
}

impl Sheet {
    fn check_page(&self, des: &Design, out: &mut Vec<String>)
        requires
            self.wf(*des),
        ensures
            text::views(final(out)@) == page_notes(
                self.sees(*des),
                text::views(old(out)@),
                des@.parts.len() as int,
            ),
    {
        let ghost s = self.sees(*des);
        let ghost o0 = text::views(out@);
        let (w, h) = paper_mm(des.paper.as_str());
        let mut i: usize = 0;
        while i < des.parts.len()
            invariant
                i <= des.parts@.len(),
                self.wf(*des),
                s == self.sees(*des),
                (w as int, h as int) == paper_size(des@.paper),
                14_800_000 <= w <= 59_400_000,
                14_800_000 <= h <= 59_400_000,
                text::views(out@) == page_notes(s, o0, i as int),
            decreases des.parts@.len() - i,
        {
            let p = &des.parts[i];
            assert(s.des.parts[i as int] == p@);
            assert(model::part_ok(s.des.parts[i as int]));
            assert(s.parts[i as int] == self.parts@[i as int]@);
            let b = self.parts[i].full;
            if b.x0 < 1_000_000 || b.y0 < 1_000_000 || b.x1 > w - 1_000_000 || b.y1 > h
                - 2_500_000 {
                let q = fmt_pt(p.at);
                let t = Line::of(p.id.as_str()).add(" at ").add(q.as_str()).add(
                    " extends outside the drawable page area (keep x in 10..",
                ).whole((w - 1_000_000) / 127_000).add(", y in 10..").whole(
                    (h - 2_500_000) / 127_000,
                ).add(" grid units)").done();
                note(out, Some(t));
            }
            i += 1;
        }
    }

    fn check_through(&self, des: &Design, out: &mut Vec<String>)
        requires
            self.wf(*des),
        ensures
            text::views(final(out)@) == through_notes(
                self.sees(*des),
                text::views(old(out)@),
                self.segs@.len() as int,
            ),
    {
        let ghost s = self.sees(*des);
        let ghost o0 = text::views(out@);
        let mut i: usize = 0;
        while i < self.segs.len()
            invariant
                i <= self.segs@.len(),
                self.wf(*des),
                s == self.sees(*des),
                text::views(out@) == through_notes(s, o0, i as int),
            decreases self.segs@.len() - i,
        {
            let e = self.segs[i];
            assert(compile::key_ok(self.segs@[i as int].0) && compile::key_ok(
                self.segs@[i as int].1,
            ));
            let j: usize = self.find_body(e);
            if j < self.parts.len() {
                assert(s.parts[j as int] == self.parts@[j as int]@);
                assert(showable_box(self.parts@[j as int].body));
                let b = self.parts[j].body;
                let p = fmt_key(e.0);
                let q = fmt_key(e.1);
                let x0 = grid_str(b.x0);
                let x1 = grid_str(b.x1);
                let y0 = grid_str(b.y0);
                let y1 = grid_str(b.y1);
                let t = Line::of("wire ").add(p.as_str()).add("-").add(q.as_str()).add(
                    " passes through the body of ",
                ).add(self.parts[j].id.as_str()).add(" (body x ").add(x0.as_str()).add("..").add(
                    x1.as_str(),
                ).add(", y ").add(y0.as_str()).add("..").add(y1.as_str()).add(")").done();
                note(out, Some(t));
            }
            i += 1;
        }
    }

    fn find_body(&self, e: (Key, Key)) -> (r: usize)
        requires
            placed_ok(self.parts@),
            compile::key_ok(e.0),
            compile::key_ok(e.1),
        ensures
            r == body_hit(placed_v(self.parts@), e, 0),
            r <= self.parts@.len(),
    {
        let ghost v = placed_v(self.parts@);
        let mut i: usize = 0;
        while i < self.parts.len()
            invariant
                i <= self.parts@.len(),
                v == placed_v(self.parts@),
                compile::key_ok(e.0),
                compile::key_ok(e.1),
                body_hit(v, e, 0) == body_hit(v, e, i as int),
            decreases self.parts@.len() - i,
        {
            assert(v[i as int] == self.parts@[i as int]@);
            if seg_crosses_box(e.0, e.1, &scale(&self.parts[i].body, 1), 1, 100_000) {
                return i;
            }
            i += 1;
        }
        i
    }

    pub(crate) fn find_cover(&self, a: &Area, own: Option<&str>, k: i128, margin: i128) -> (r: usize)
        requires
            a.wf(),
            1 <= k <= 1000,
            0 <= margin <= 0x1000_0000_0000_0000,
        ensures
            r == area_hit(
                placed_v(self.parts@),
                a@,
                (match own {
                    Some(o) => Some(o@),
                    None => None,
                }),
                k as int,
                margin as int,
                0,
            ),
            r <= self.parts@.len(),
    {
        let ghost v = placed_v(self.parts@);
        let ghost ov = match own {
            Some(o) => Some(o@),
            None => None,
        };
        let mut i: usize = 0;
        while i < self.parts.len()
            invariant
                i <= self.parts@.len(),
                v == placed_v(self.parts@),
                ov == (match own {
                    Some(o) => Some(o@),
                    None => None,
                }),
                a.wf(),
                1 <= k <= 1000,
                0 <= margin <= 0x1000_0000_0000_0000,
                area_hit(v, a@, ov, k as int, margin as int, 0) == area_hit(
                    v,
                    a@,
                    ov,
                    k as int,
                    margin as int,
                    i as int,
                ),
            decreases self.parts@.len() - i,
        {
            assert(v[i as int] == self.parts@[i as int]@);
            let mine = match own {
                Some(o) => same(o, self.parts[i].id.as_str()),
                None => false,
            };
            if !mine && overlap(a, &scale(&self.parts[i].body, k), margin) {
                return i;
            }
            i += 1;
        }
        i
    }

    fn check_cover(&self, des: &Design, out: &mut Vec<String>)
        requires
            self.wf(*des),
        ensures
            text::views(final(out)@) == cover_notes(
                self.sees(*des),
                text::views(old(out)@),
                self.at@.len() as int,
            ),
    {
        let ghost s = self.sees(*des);
        let ghost o0 = text::views(out@);
        let mut i: usize = 0;
        while i < self.at.len()
            invariant
                i <= self.at@.len(),
                self.wf(*des),
                s == self.sees(*des),
                text::views(out@) == cover_notes(s, o0, i as int),
            decreases self.at@.len() - i,
        {
            let (k, n) = self.at[i];
            assert(s.at[i as int] == (k, n as int));
            assert(compile::key_ok(self.at@[i as int].0) && n < des.labels@.len());
            let l = &des.labels[n];
            assert(s.des.labels[n as int] == l@);
            let a = label_box(l.text.as_str().unicode_len(), l.rot, k);
            assert(a@ == label_area(l@, k));
            let j: usize = self.find_cover(&a, None, 1, 20_000);
            if j < self.parts.len() {
                assert(s.parts[j as int] == self.parts@[j as int]@);
                let p = fmt_key(k);
                let t = Line::of("label '").add(l.text.as_str()).add("' at ").add(p.as_str()).add(
                    " (rot ",
                ).whole(l.rot as i64).add(") overlaps the body of ").add(
                    self.parts[j].id.as_str(),
                ).add("; rotate it to point away from the symbol or move it").done();
                note(out, Some(t));
            }
            i += 1;
        }
    }
}

fn label_box(n: usize, rot: i32, k: Key) -> (a: Area)
    requires
        compile::key_ok(k),
    ensures
        forall|l: LabelV|
            l.text.len() == n && l.rot == rot ==> a@ == #[trigger] label_area(l, k),
        a.wf(),
{
    let p = k.xy();
    let x: i128 = p.x as i128;
    let y: i128 = p.y as i128;
    let len: i128 = 114_300 * n as i128 + 150_000;
    if rot == 0 || rot == 180 {
        Area {
            x0: x - (if rot == 180 { len } else { 0 }),
            y0: y - 160_000,
            x1: x + (if rot == 180 { 0 } else { len }),
            y1: y + 20_000,
        }
    } else {
        Area {
            x0: x - 160_000,
            y0: y - (if rot == 90 { len } else { 0 }),
            x1: x + 20_000,
            y1: y + (if rot == 90 { 0 } else { len }),
        }
    }
}

// ---------------------------------------------------------------- the whole check
pub open spec fn key_lt(a: Key, b: Key) -> bool {
    a.0 < b.0 || (a.0 == b.0 && a.1 < b.1)
}

/// The first place from `i` on whose key does not come before `k`.
pub open spec fn key_spot(v: Seq<Key>, k: Key, i: int) -> int
    decreases v.len() - i,
{
    if i < 0 || i >= v.len() {
        v.len() as int
    } else if key_lt(v[i], k) {
        key_spot(v, k, i + 1)
    } else {
        i
    }
}

/// The first `n` points in ascending order, each once.
pub open spec fn key_set(v: Seq<Pt>, n: int) -> Seq<Key>
    decreases n,
{
    if n <= 0 {
        Seq::empty()
    } else {
        let s = key_set(v, n - 1);
        let k = compile::key_spec(v[n - 1]);
        if s.contains(k) {
            s
        } else {
            s.insert(key_spot(s, k, 0), k)
        }
    }
}

fn sorted_marks(des: &Design) -> (r: Vec<Key>)
    requires
        des@.ok(),
    ensures
        r@ == key_set(des@.nc, des@.nc.len() as int),
        netlist::keys_fit(r@),
{
    let mut r: Vec<Key> = Vec::new();
    let mut i: usize = 0;
    while i < des.nc.len()
        invariant
            i <= des.nc@.len(),
            des@.ok(),
            r@ == key_set(des@.nc, i as int),
            netlist::keys_fit(r@),
        decreases des.nc@.len() - i,
    {
        assert(model::on_sheet(des@.nc[i as int]));
        let k = Key::of(des.nc[i]);
        let ghost r0 = r@;
        if !netlist::has_key(&r, k) {
            let mut j: usize = 0;
            while j < r.len() && (r[j].0 < k.0 || (r[j].0 == k.0 && r[j].1 < k.1))
                invariant
                    j <= r@.len(),
                    r@ == r0,
                    key_spot(r0, k, 0) == key_spot(r0, k, j as int),
                decreases r@.len() - j,
            {
                j += 1;
            }
            r.insert(j, k);
            assert(r@ =~= r0.insert(j as int, k));
            assert forall|q: int| 0 <= q < r@.len() implies compile::key_ok(#[trigger] r@[q]) by {
                if q < j {
                    assert(r@[q] == r0[q]);
                } else if q > j {
                    assert(r@[q] == r0[q - 1]);
                }
            }
        }
        i += 1;
    }
    r
}

fn labels_by_point(des: &Design) -> (r: Vec<(Key, usize)>)
    requires
        des@.ok(),
    ensures
        netlist::at_v(r@) == label_points(des@.labels, des@.labels.len() as int),
        forall|i: int|
            0 <= i < r@.len() ==> compile::key_ok((#[trigger] r@[i]).0) && r@[i].1
                < des.labels@.len(),
{
    let mut r: Vec<(Key, usize)> = Vec::new();
    let mut i: usize = 0;
    assert(netlist::at_v(r@) =~= label_points(des@.labels, 0));
    while i < des.labels.len()
        invariant
            i <= des.labels@.len(),
            des@.ok(),
            netlist::at_v(r@) == label_points(des@.labels, i as int),
            forall|k: int|
                0 <= k < r@.len() ==> compile::key_ok((#[trigger] r@[k]).0) && r@[k].1
                    < des.labels@.len(),
        decreases des.labels@.len() - i,
    {
        assert(des@.labels[i as int] == des.labels@[i as int]@);
        assert(model::on_sheet(des@.labels[i as int].at));
        let k = Key::of(des.labels[i].at);
        let ghost v = netlist::at_v(r@);
        let mut j: usize = 0;
        while j < r.len() && r[j].0 != k
            invariant
                j <= r@.len(),
                v == netlist::at_v(r@),
                compile::seek_key(v, k, 0) == compile::seek_key(v, k, j as int),
            decreases r@.len() - j,
        {
            assert(v[j as int].0 == r@[j as int].0);
            j += 1;
        }
        if j < r.len() {
            assert(v[j as int].0 == r@[j as int].0);
            r.set(j, (k, i));
            assert(netlist::at_v(r@) =~= v.update(j as int, (k, i as int)));
        } else {
            r.push((k, i));
            assert(netlist::at_v(r@) =~= v.push((k, i as int)));
        }
        i += 1;
    }
    r
}

/// Members of a net that belong to real parts.
pub open spec fn real_members(v: Seq<Seq<char>>, n: int) -> Seq<Seq<char>>
    decreases n,
{
    if n <= 0 {
        Seq::empty()
    } else if text::starts(v[n - 1], "#"@) {
        real_members(v, n - 1)
    } else {
        real_members(v, n - 1).push(v[n - 1])
    }
}

pub open spec fn lone_pin_note(e: (Seq<char>, Seq<Seq<char>>)) -> Option<Seq<char>> {
    let r = real_members(e.1, e.1.len() as int);
    if r.len() == 1 && text::starts(e.0, "N$"@) {
        Some("net with single pin "@ + r[0] + " (wire leads nowhere)"@)
    } else {
        None
    }
}

pub open spec fn lone_pin_notes(
    nets: Seq<(Seq<char>, Seq<Seq<char>>)>,
    v: Seq<Seq<char>>,
    n: int,
) -> Seq<Seq<char>>
    decreases n,
{
    if n <= 0 {
        v
    } else {
        pinref::with_error(lone_pin_notes(nets, v, n - 1), lone_pin_note(nets[n - 1]))
    }
}

/// No label among the first `n` but number `i` has its kind and text.
pub open spec fn only_one(labels: Seq<LabelV>, i: int) -> bool {
    forall|j: int|
        0 <= j < labels.len() && j != i ==> !((#[trigger] labels[j]).kind == labels[i].kind
            && labels[j].text == labels[i].text)
}

pub open spec fn lone_label_note(labels: Seq<LabelV>, i: int) -> Option<Seq<char>> {
    if labels[i].kind == "local"@ && only_one(labels, i) {
        Some(
            "net label '"@ + labels[i].text
                + "' appears only once - if it is meant to connect elsewhere, add the matching label; if it is a port/net name for documentation, that's fine"@,
        )
    } else {
        None
    }
}

pub open spec fn lone_label_notes(labels: Seq<LabelV>, v: Seq<Seq<char>>, n: int) -> Seq<Seq<char>>
    decreases n,
{
    if n <= 0 {
        v
    } else {
        pinref::with_error(lone_label_notes(labels, v, n - 1), lone_label_note(labels, n - 1))
    }
}

fn check_lone_pins(nets: &Vec<(String, Vec<String>)>, out: &mut Vec<String>)
    ensures
        text::views(final(out)@) == lone_pin_notes(
            netlist::nets_v(nets@),
            text::views(old(out)@),
            nets@.len() as int,
        ),
{
    let ghost nv = netlist::nets_v(nets@);
    let ghost o0 = text::views(out@);
    let mut i: usize = 0;
    while i < nets.len()
        invariant
            i <= nets@.len(),
            nv == netlist::nets_v(nets@),
            text::views(out@) == lone_pin_notes(nv, o0, i as int),
        decreases nets@.len() - i,
    {
        let m = &nets[i].1;
        let ghost mv = text::views(m@);
        assert(nv[i as int] == (nets@[i as int].0@, mv));
        let mut mine: Vec<String> = Vec::new();
        let mut j: usize = 0;
        assert(text::views(mine@) =~= real_members(mv, 0));
        while j < m.len()
            invariant
                j <= m@.len(),
                mv == text::views(m@),
                text::views(mine@) == real_members(mv, j as int),
            decreases m@.len() - j,
        {
            assert(mv[j as int] == m@[j as int]@);
            let ghost r0 = text::views(mine@);
            if !starts_with(m[j].as_str(), "#") {
                mine.push(m[j].clone());
                assert(text::views(mine@) =~= r0.push(mv[j as int]));
            }
            j += 1;
        }
        assert(text::views(mine@).len() == mine@.len());
        if mine.len() == 1 && starts_with(nets[i].0.as_str(), "N$") {
            assert(text::views(mine@)[0] == mine@[0]@);
            let t = Line::of("net with single pin ").add(mine[0].as_str()).add(
                " (wire leads nowhere)",
            ).done();
            note(out, Some(t));
        }
        i += 1;
    }
}

fn check_lone_labels(des: &Design, out: &mut Vec<String>)
    ensures
        text::views(final(out)@) == lone_label_notes(
            des@.labels,
            text::views(old(out)@),
            des@.labels.len() as int,
        ),
{
    let ghost lv = des@.labels;
    let ghost o0 = text::views(out@);
    let mut i: usize = 0;
    while i < des.labels.len()
        invariant
            i <= des.labels@.len(),
            lv == des@.labels,
            text::views(out@) == lone_label_notes(lv, o0, i as int),
        decreases des.labels@.len() - i,
    {
        let l = &des.labels[i];
        assert(lv[i as int] == l@);
        let mut only = true;
        let mut j: usize = 0;
        while j < des.labels.len()
            invariant
                j <= des.labels@.len(),
                i < des.labels@.len(),
                lv == des@.labels,
                *l == des.labels@[i as int],
                only == forall|k: int|
                    0 <= k < j && k != i ==> !((#[trigger] lv[k]).kind == l.kind@ && lv[k].text
                        == l.text@),
            decreases des.labels@.len() - j,
        {
            assert(lv[j as int] == des.labels@[j as int]@);
            if j != i && same(des.labels[j].kind.as_str(), l.kind.as_str()) && same(
                des.labels[j].text.as_str(),
                l.text.as_str(),
            ) {
                only = false;
            }
            j += 1;
        }
        assert(only == only_one(lv, i as int));
        if same(l.kind.as_str(), "local") && only {
            let t = Line::of("net label '").add(l.text.as_str()).add(
                "' appears only once - if it is meant to connect elsewhere, add the matching label; if it is a port/net name for documentation, that's fine",
            ).done();
            note(out, Some(t));
        }
        i += 1;
    }
}

/// What is on a sheet, as its compiler sees it.
pub open spec fn sheet_of(l: Lookup) -> SheetV {
    SheetV {
        des: l.des,
        pins: compile::pin_positions(l.st, l.des, l.shelf).1,
        segs: compile::all_keys(l.des.wires, l.des.wires.len() as int),
        at: label_points(l.des.labels, l.des.labels.len() as int),
        nc: key_set(l.des.nc, l.des.nc.len() as int),
        parts: (Lookup { st: compile::pin_positions(l.st, l.des, l.shelf).0, ..l }).placed_parts(),
    }
}

/// Faults of a sheet: parts off the page, loose pins, wire ends, labels, power symbols and marks,
/// symbols that overlap, wires through bodies, and texts that overlap.
pub open spec fn issues_of(l: Lookup) -> Seq<Seq<char>> {
    let s = sheet_of(l);
    let k = Lookup { st: compile::pin_positions(l.st, l.des, l.shelf).0, ..l };
    let ends = wire_ends(s.des.wires, s.des.wires.len() as int);
    let all = s.parts + k.placed_power(s.des.power.len() as int);
    let v1 = page_notes(s, Seq::empty(), s.des.parts.len() as int);
    let v2 = pin_notes(s, ends, v1, s.pins.len() as int);
    let v3 = end_notes(s, ends, v2, ends.len() as int);
    let v4 = label_notes(s, v3, s.at.len() as int);
    let v5 = power_notes(s, v4, s.des.power.len() as int);
    let v6 = mark_notes(s, v5, s.nc.len() as int);
    let v7 = clash_notes(all, v6, all.len() as int);
    let v8 = through_notes(s, v7, s.segs.len() as int);
    readable::text_issues(s, l.st.texts, v8)
}

pub open spec fn nets_on(l: Lookup) -> netlist::NetsV {
    let s = sheet_of(l);
    netlist::sheet_nets(l.des, s.pins, s.segs, s.at)
}

/// Doubts about a sheet: slanted wires, labels over bodies, wires through texts and across each
/// other, shorted nets, nets of one pin and labels that occur once.
pub open spec fn warnings_of(l: Lookup) -> Seq<Seq<char>> {
    let s = sheet_of(l);
    let n = nets_on(l);
    let v1 = slant_notes(s, Seq::empty(), s.segs.len() as int);
    let v2 = cover_notes(s, v1, s.at.len() as int);
    let v3 = readable::text_warnings(s, l.st.texts, v2);
    let v4 = lone_pin_notes(n.nets, v3 + n.warnings, n.nets.len() as int);
    lone_label_notes(l.des.labels, v4, l.des.labels.len() as int)
}

/// Checks a compiled sheet.
pub struct Checker {
    pub comp: Compiler,
    pub issues: Vec<String>,
    pub warnings: Vec<String>,
    /// Nets with their pins, in the order in which they came up.
    pub nets: Vec<(String, Vec<String>)>,
}

pub open spec fn wires_led(des: DesignV) -> bool {
    forall|i: int| 0 <= i < des.wires.len() ==> (#[trigger] des.wires[i]).len() > 0
}

impl Checker {
    pub fn new(comp: Compiler) -> (c: Checker)
        ensures
            c.comp == comp,
            c.issues@.len() == 0,
            c.warnings@.len() == 0,
            c.nets@.len() == 0,
    {
        Checker { comp, issues: Vec::new(), warnings: Vec::new(), nets: Vec::new() }
    }

    /// Runs all checks; what they find comes behind what is there, and the nets are those of the
    /// sheet.
    pub fn run(&mut self)
        requires
            old(self).comp.wf(),
            wires_led(old(self).comp.des@),
        ensures
            final(self).comp.wf(),
            final(self).comp.des == old(self).comp.des,
            text::views(final(self).issues@) == text::views(old(self).issues@) + issues_of(
                old(self).comp.lookup(),
            ),
            text::views(final(self).warnings@) == text::views(old(self).warnings@) + warnings_of(
                old(self).comp.lookup(),
            ),
            netlist::nets_v(final(self).nets@) == nets_on(old(self).comp.lookup()).nets,
    {
        let mut issues: Vec<String> = Vec::new();
        let mut warnings: Vec<String> = Vec::new();
        std::mem::swap(&mut issues, &mut self.issues);
        std::mem::swap(&mut warnings, &mut self.warnings);
        let ghost (i0, w0) = (text::views(issues@), text::views(warnings@));
        self.run_anew();
        let ghost (i1, w1) = (text::views(self.issues@), text::views(self.warnings@));
        issues.append(&mut self.issues);
        warnings.append(&mut self.warnings);
        assert(text::views(issues@) =~= i0 + i1);
        assert(text::views(warnings@) =~= w0 + w1);
        self.issues = issues;
        self.warnings = warnings;
    }

    fn run_anew(&mut self)
        requires
            old(self).comp.wf(),
            wires_led(old(self).comp.des@),
            old(self).issues@.len() == 0,
            old(self).warnings@.len() == 0,
        ensures
            final(self).comp.wf(),
            final(self).comp.des == old(self).comp.des,
            text::views(final(self).issues@) == issues_of(old(self).comp.lookup()),
            text::views(final(self).warnings@) == warnings_of(old(self).comp.lookup()),
            netlist::nets_v(final(self).nets@) == nets_on(old(self).comp.lookup()).nets,
    {
        let ghost l = self.comp.lookup();
        let pins = self.comp.all_pin_positions();
        proof {
            lemma_no_bare_spots(l.st, l.des, l.shelf);
            assert(text::views(self.issues@) =~= Seq::empty());
            assert(text::views(self.warnings@) =~= Seq::empty());
        }
        let ghost k = self.comp.lookup();
        assert(k.st == compile::pin_positions(l.st, l.des, l.shelf).0);
        assert(k == (Lookup { st: k.st, ..l }));
        let sheet = Sheet {
            pins,
            segs: self.comp.segments(),
            at: labels_by_point(&self.comp.des),
            nc: sorted_marks(&self.comp.des),
            parts: self.comp.part_areas(),
        };
        let des = &self.comp.des;
        let ghost s = sheet.sees(*des);
        proof {
            let w = sheet_of(l);
            assert(placed_v(sheet.parts@).len() == sheet.parts@.len());
            assert(s.des == w.des && s.pins == w.pins && s.segs == w.segs && s.at == w.at && s.nc
                == w.nc && s.parts == w.parts);
            assert(s == w);
            assert(s.pins.len() == sheet.pins@.len());
            assert(s.at.len() == sheet.at@.len());
        }
        let ends = ends_of_wires(des);
        let mut all = self.comp.part_areas();
        self.comp.power_areas(&mut all);
        let ghost av = placed_v(all@);
        assert(av.len() == all@.len());
        let mut issues: Vec<String> = Vec::new();
        let mut warnings: Vec<String> = Vec::new();
        assert(text::views(issues@) =~= Seq::empty());
        assert(text::views(warnings@) =~= Seq::empty());
        sheet.check_page(des, &mut issues);
        sheet.check_pins(des, &ends, &mut issues);
        sheet.check_ends(des, &ends, &mut issues);
        sheet.check_labels(des, &mut issues);
        sheet.check_power(des, &mut issues);
        sheet.check_marks(des, &mut issues);
        sheet.check_slants(des, &mut warnings);
        check_clashes(&all, &mut issues);
        sheet.check_through(des, &mut issues);
        sheet.check_cover(des, &mut warnings);
        assert(k.st.texts == l.st.texts) by {
            lemma_refs_keep_texts(l.st, l.des, l.shelf, l.des.parts.len() as int);
        }
        sheet.check_texts(des, &self.comp.text_items, &mut issues, &mut warnings);
        let nets = netlist::build_nets(des, &sheet.pins, &sheet.segs, &sheet.at, &mut warnings);
        let ghost nv = netlist::nets_v(nets@);
        assert(nv.len() == nets@.len());
        check_lone_pins(&nets, &mut warnings);
        check_lone_labels(des, &mut warnings);
        self.issues = issues;
        self.warnings = warnings;
        self.nets = nets;
    }
}

proof fn lemma_refs_keep_texts(st: StateV, des: DesignV, shelf: Shelf, n: int)
    ensures
        compile::all_refs(st, des, shelf, n).0.texts == st.texts,
    decreases n,
{
    if n > 0 {
        lemma_refs_keep_texts(st, des, shelf, n - 1);
    }
}

proof fn lemma_add_ref_filled(v: compile::PinsAtV, k: Key, r: compile::PinRefV)
    requires
        no_bare_spots(v),
    ensures
        no_bare_spots(compile::add_ref(v, k, r)),
{
    lemma_seek_range(v, k, 0);
    let i = compile::seek_key(v, k, 0);
    let w = compile::add_ref(v, k, r);
    assert forall|j: int| 0 <= j < w.len() implies (#[trigger] w[j]).1.len() > 0 by {
        if j < v.len() && j != i {
            assert(w[j] == v[j]);
        }
    }
}

proof fn lemma_seek_range<T>(v: Seq<(Key, T)>, k: Key, i: int)
    requires
        0 <= i <= v.len(),
    ensures
        i <= compile::seek_key(v, k, i) <= v.len(),
    decreases v.len() - i,
{
    if i < v.len() && v[i].0 != k {
        lemma_seek_range(v, k, i + 1);
    }
}

proof fn lemma_part_refs_filled(v: compile::PinsAtV, p: PartV, pins: Seq<symlib::Pin>, n: int)
    requires
        no_bare_spots(v),
    ensures
        no_bare_spots(compile::part_refs(v, p, pins, n)),
    decreases n,
{
    if n > 0 {
        lemma_part_refs_filled(v, p, pins, n - 1);
        let pin = pins[n - 1];
        lemma_add_ref_filled(
            compile::part_refs(v, p, pins, n - 1),
            compile::key_spec(compile::pin_place(p, pin)),
            compile::PinRefV { owner: p.id, number: pin.number@, etype: pin.etype@ },
        );
    }
}

proof fn lemma_power_refs_filled(v: compile::PinsAtV, power: Seq<PowerV>, n: int)
    requires
        no_bare_spots(v),
    ensures
        no_bare_spots(compile::power_refs(v, power, n)),
    decreases n,
{
    if n > 0 {
        lemma_power_refs_filled(v, power, n - 1);
        let w = power[n - 1];
        lemma_add_ref_filled(
            compile::power_refs(v, power, n - 1),
            compile::key_spec(w.at),
            compile::PinRefV {
                owner: if w.reference.len() == 0 {
                    "#PWR"@
                } else {
                    w.reference
                },
                number: "1"@,
                etype: "power_in"@,
            },
        );
    }
}

proof fn lemma_all_refs_filled(st: StateV, des: DesignV, shelf: Shelf, n: int)
    ensures
        no_bare_spots(compile::all_refs(st, des, shelf, n).1),
    decreases n,
{
    if n > 0 {
        lemma_all_refs_filled(st, des, shelf, n - 1);
        let (s, v) = compile::all_refs(st, des, shelf, n - 1);
        let p = des.parts[n - 1];
        let (s1, u) = compile::resolved(s, des, shelf, p.lib, p.lib_name);
        match u {
            Some(x) => {
                let pins = x.src.unit_spec(p.unit).pins@;
                lemma_part_refs_filled(v, p, pins, pins.len() as int);
            },
            None => {},
        }
    }
}

/// Every point with pins has at least one.
pub proof fn lemma_no_bare_spots(st: StateV, des: DesignV, shelf: Shelf)
    ensures
        no_bare_spots(compile::pin_positions(st, des, shelf).1),
{
    lemma_all_refs_filled(st, des, shelf, des.parts.len() as int);
    let v = compile::all_refs(st, des, shelf, des.parts.len() as int).1;
    lemma_power_refs_filled(v, des.power, des.power.len() as int);
}

} // verus!
