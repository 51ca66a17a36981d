//! Where the reference and the value of a part stand on the sheet, clear of wires and power symbols.
use crate::engine;
use crate::engine::{points_to, rot_body, text_slot, TextSlot};
use crate::extract;
use crate::geom;
use crate::geom::{BBox, Dir, Mirror, Pt};
use crate::json;
use crate::model;
use crate::model::{Anchor, AnchorV, Part, PartV};
use crate::number;
use crate::number::round_to;
use crate::sexp;
use crate::sexp::{Sexp, SexpV};
use crate::symlib;
use crate::symlib::{mirror_of, turned_dir, Pin, SymbolInfo, TEXT_MAX};
use crate::text;
use crate::text::{contains, replace_all, same};
use vstd::prelude::*;

verus! {

/// A property anchor: point, stored angle and justification.
#[derive(Debug)]
pub struct At {
    pub x: i64,
    pub y: i64,
    pub rot: i32,
    pub justify: String,
}

#[verifier::ext_equal]
pub struct AtV {
    pub x: int,
    pub y: int,
    pub rot: int,
    pub justify: Seq<char>,
}

impl View for At {
    type V = AtV;

    open spec fn view(&self) -> AtV {
        AtV { x: self.x as int, y: self.y as int, rot: self.rot as int, justify: self.justify@ }
    }
}

/// Where anything on a sheet, and the texts beside it, can be.
pub open spec fn roomy(v: int) -> bool {
    -2_100_000_000_000_000 <= v <= 2_100_000_000_000_000
}

pub open spec fn at_ok(a: AtV) -> bool {
    roomy(a.x) && roomy(a.y)
}

impl At {
    pub fn dup(&self) -> (r: At)
        ensures
            r@ == self@,
    {
        At { x: self.x, y: self.y, rot: self.rot, justify: self.justify.clone() }
    }
}

/// Left and right exchanged.
pub open spec fn swapped_lr(j: Seq<char>) -> Seq<char> {
    text::replaced(
        text::replaced(text::replaced(j, "left"@, "\u{1}"@), "right"@, "left"@),
        "\u{1}"@,
        "right"@,
    )
}

/// Top and bottom exchanged.
pub open spec fn swapped_tb(j: Seq<char>) -> Seq<char> {
    text::replaced(
        text::replaced(text::replaced(j, "top"@, "\u{1}"@), "bottom"@, "top"@),
        "\u{1}"@,
        "bottom"@,
    )
}

pub fn swap_lr(j: &str) -> (r: String)
    ensures
        r@ == swapped_lr(j@),
{
    proof {
        reveal_strlit("left");
        reveal_strlit("right");
        reveal_strlit("\u{1}");
    }
    let a = replace_all(j, "left", "\u{1}");
    let b = replace_all(a.as_str(), "right", "left");
    replace_all(b.as_str(), "\u{1}", "right")
}

pub fn swap_tb(j: &str) -> (r: String)
    ensures
        r@ == swapped_tb(j@),
{
    proof {
        reveal_strlit("top");
        reveal_strlit("bottom");
        reveal_strlit("\u{1}");
    }
    let a = replace_all(j, "top", "\u{1}");
    let b = replace_all(a.as_str(), "bottom", "top");
    replace_all(b.as_str(), "\u{1}", "bottom")
}

/// Rounded to four decimals of a millimetre.
pub open spec fn r4(v: int) -> int {
    number::rounded(v, 10)
}

fn round4(v: i64) -> (r: i64)
    requires
        -0x10_0000_0000_0000 <= v <= 0x10_0000_0000_0000,
    ensures
        r == r4(v as int),
        -1000 <= r - v <= 1000,
{
    round_to(v, 10)
}

/// An anchor given by hand.
pub open spec fn given(a: AnchorV) -> AtV {
    AtV {
        x: a.at.x as int,
        y: a.at.y as int,
        rot: if a.rest.len() > 0 && json::num_in(a.rest[0]) is Some {
            extract::clamp_i32(extract::whole(json::num_in(a.rest[0])->0))
        } else {
            0
        },
        justify: if a.rest.len() > 1 && json::str_in(a.rest[1]) is Some {
            json::str_in(a.rest[1])->0
        } else {
            Seq::empty()
        },
    }
}

pub fn from_anchor(a: &Anchor) -> (r: At)
    requires
        model::on_sheet(a.at),
        json::all_ok(json::values_v(a.rest@)),
    ensures
        r@ == given(a@),
        at_ok(r@),
{
    let mut rot: i32 = 0;
    if a.rest.len() > 0 {
        assert(json::values_v(a.rest@)[0] == a.rest@[0]@);
        if let Some(v) = a.rest[0].as_num() {
            rot = extract::to_i32(extract::to_whole(v));
        }
    }
    let mut justify = String::new();
    assert(justify@ =~= Seq::empty());
    if a.rest.len() > 1 {
        assert(json::values_v(a.rest@)[1] == a.rest@[1]@);
        if let Some(s) = a.rest[1].as_str() {
            justify = s.clone();
        }
    }
    At { x: a.at.x, y: a.at.y, rot, justify }
}

/// The stored angle of a text that is drawn level.
pub open spec fn level(rot: int) -> int {
    (-rot) % 180
}

fn level_of(rot: i32) -> (r: i32)
    ensures
        r == level(rot as int),
        0 <= r < 180,
{
    let r: i64 = geom::floor_mod(-(rot as i64), 180);
    r as i32
}

/// Whether the justification of a text stored at angle `a` shows mirrored.
pub open spec fn shows_mirrored(a: int, rot: int, mirror: Seq<char>) -> bool {
    ((a + rot) % 360 == 180) != (mirror == "y"@)
}

pub(crate) fn is_mirrored(a: i32, rot: i32, mirror: &str) -> (r: bool)
    ensures
        r == shows_mirrored(a as int, rot as int, mirror@),
{
    let m: i64 = geom::floor_mod(a as i64 + rot as i64, 360);
    (m == 180) != same(mirror, "y")
}

/// Where the library's own anchor of a property comes to stand.
pub open spec fn library_at(p: PartV, lp: Option<SexpV>) -> AtV {
    let at = extract::child_in(lp, "at"@);
    let x = match at {
        Some(a) => extract::units_of(extract::number_at(a, 1)),
        None => 0,
    };
    let y = match at {
        Some(a) => extract::units_of(extract::number_at(a, 2)),
        None => 0,
    };
    let j = extract::justify_of(extract::child_in(lp, "effects"@));
    let (dx, dy) = symlib::turned(x, y, p.rot, symlib::mirror_spec(p.mirror));
    let ang = level(p.rot);
    let half = (ang + p.rot) % 360 == 180;
    let side = p.rot == 90 || p.rot == 270;
    let j1 = if j.len() > 0 && side && half != (p.mirror == "y"@) {
        swapped_lr(j)
    } else {
        j
    };
    let j2 = if j.len() > 0 && side && half != (p.mirror == "x"@) {
        swapped_tb(j1)
    } else {
        j1
    };
    AtV { x: r4(p.at.x + dx), y: r4(p.at.y + dy), rot: ang, justify: j2 }
}

fn nearest_ten(v: i64) -> (r: i64)
    requires
        -0x10_0000_0000_0000 <= v <= 0x10_0000_0000_0000,
    ensures
        r == geom::nearest_multiple(v as int, 10),
        -5 <= r - v <= 5,
{
    let mut q: i64 = if v >= 0 { v / 10 } else { -((9 - v) / 10) };
    let m: i64 = v - q * 10;
    assert(q == v as int / 10 && m == v as int % 10);
    if 2 * m > 10 || (2 * m == 10 && q % 2 != 0) {
        q += 1;
    }
    q * 10
}

/// Turns a point that may lie far from its symbol.
fn turn_far(x: i64, y: i64, rot: i32, m: Mirror) -> (r: (i64, i64))
    requires
        -900_000_000_000_000 <= x <= 900_000_000_000_000,
        -900_000_000_000_000 <= y <= 900_000_000_000_000,
    ensures
        (r.0 as int, r.1 as int) == symlib::turned(x as int, y as int, rot as int, m),
        -900_000_000_000_005 <= r.0 <= 900_000_000_000_005,
        -900_000_000_000_005 <= r.1 <= 900_000_000_000_005,
{
    proof {
        reveal(symlib::turned);
    }
    let q: i64 = geom::floor_mod(rot as i64, 360);
    let (a, b): (i64, i64) = if q == 90 {
        (-y, x)
    } else if q == 180 {
        (-x, -y)
    } else if q == 270 {
        (y, -x)
    } else {
        (x, y)
    };
    let (c, d): (i64, i64) = match m {
        Mirror::Plain => (a, b),
        Mirror::X => (a, -b),
        Mirror::Y => (-a, b),
    };
    (nearest_ten(c), nearest_ten(-d))
}

/// Where the library's own anchor of a property comes to stand.
pub fn library_anchor(at: Pt, rot: i32, mirror: &str, lp: Option<&Sexp>, Ghost(p): Ghost<PartV>) -> (r: At)
    requires
        p.at == at,
        p.rot == rot,
        p.mirror == mirror@,
        -1_150_000_000_000_000 <= at.x <= 1_150_000_000_000_000,
        -1_150_000_000_000_000 <= at.y <= 1_150_000_000_000_000,
        lp is Some ==> sexp::ok(lp->0@),
    ensures
        r@ == library_at(p, sexp::node_v(lp)),
        at_ok(r@),
{
    let node = extract::child_node(lp, "at");
    let (x, y): (i64, i64) = match node {
        Some(a) => (
            extract::to_units(extract::num_at(a, 1)),
            extract::to_units(extract::num_at(a, 2)),
        ),
        None => (0, 0),
    };
    let j = extract::justify(extract::child_node(lp, "effects"));
    let (dx, dy) = turn_far(x, y, rot, mirror_of(mirror));
    let ang: i32 = level_of(rot);
    let half = geom::floor_mod(ang as i64 + rot as i64, 360) == 180;
    let mut out = j.clone();
    if j.as_str().unicode_len() > 0 && (rot == 90 || rot == 270) {
        if half != same(mirror, "y") {
            out = swap_lr(out.as_str());
        }
        if half != same(mirror, "x") {
            out = swap_tb(out.as_str());
        }
    }
    At { x: round4(at.x + dx), y: round4(at.y + dy), rot: ang, justify: out }
}

// ---------------------------------------------------------------- what texts keep clear of

/// A level or upright segment runs through the inside of a box shrunk by `eps`.
pub open spec fn runs_in(a: Pt, b: Pt, bx: BBox, eps: int) -> bool {
    let (x0, y0, x1, y1) = (bx.x0 + eps, bx.y0 + eps, bx.x1 - eps, bx.y1 - eps);
    if a.x == b.x {
        x0 < a.x < x1 && geom::hi(a.y as int, b.y as int) > y0 && geom::lo(a.y as int, b.y as int)
            < y1
    } else if a.y == b.y {
        y0 < a.y < y1 && geom::hi(a.x as int, b.x as int) > x0 && geom::lo(a.x as int, b.x as int)
            < x1
    } else {
        false
    }
}

pub open spec fn far_box(b: BBox) -> bool {
    &&& -0x8_0000_0000_0000 <= b.x0 <= 0x8_0000_0000_0000
    &&& -0x8_0000_0000_0000 <= b.y0 <= 0x8_0000_0000_0000
    &&& -0x8_0000_0000_0000 <= b.x1 <= 0x8_0000_0000_0000
    &&& -0x8_0000_0000_0000 <= b.y1 <= 0x8_0000_0000_0000
}

/// Whether a level or upright segment runs through the inside of a box.
pub fn seg_in_box(a: Pt, b: Pt, bx: &BBox, eps: i64) -> (r: bool)
    requires
        far_box(*bx),
        -1_000_000 <= eps <= 1_000_000,
    ensures
        r == runs_in(a, b, *bx, eps as int),
{
    let (x0, y0, x1, y1): (i64, i64, i64, i64) = (
        bx.x0 + eps,
        bx.y0 + eps,
        bx.x1 - eps,
        bx.y1 - eps,
    );
    if a.x == b.x {
        x0 < a.x && a.x < x1 && geom::max_i(a.y, b.y) > y0 && geom::min_i(a.y, b.y) < y1
    } else if a.y == b.y {
        y0 < a.y && a.y < y1 && geom::max_i(a.x, b.x) > x0 && geom::min_i(a.x, b.x) < x1
    } else {
        false
    }
}

pub open spec fn apart(a: BBox, b: BBox) -> bool {
    a.x1 <= b.x0 || b.x1 <= a.x0 || a.y1 <= b.y0 || b.y1 <= a.y0
}

/// What texts keep clear of: wires, and the boxes of power symbols.
pub struct Around {
    pub segs: Vec<(Pt, Pt)>,
    pub boxes: Vec<BBox>,
}

#[verifier::ext_equal]
pub struct AroundV {
    pub segs: Seq<(Pt, Pt)>,
    pub boxes: Seq<BBox>,
}

impl View for Around {
    type V = AroundV;

    open spec fn view(&self) -> AroundV {
        AroundV { segs: self.segs@, boxes: self.boxes@ }
    }
}

/// A wire or a power symbol is in the box.
pub open spec fn box_hit(b: BBox, w: AroundV) -> bool {
    ||| exists|i: int|
        0 <= i < w.segs.len() && runs_in((#[trigger] w.segs[i]).0, w.segs[i].1, b, 20_000)
    ||| exists|i: int| 0 <= i < w.boxes.len() && !apart(b, #[trigger] w.boxes[i])
}

impl Around {
    fn hits(&self, b: &BBox) -> (r: bool)
        requires
            far_box(*b),
        ensures
            r == box_hit(*b, self@),
    {
        let mut i: usize = 0;
        while i < self.segs.len()
            invariant
                i <= self.segs@.len(),
                far_box(*b),
                forall|j: int|
                    0 <= j < i ==> !runs_in(
                        (#[trigger] self.segs@[j]).0,
                        self.segs@[j].1,
                        *b,
                        20_000,
                    ),
            decreases self.segs@.len() - i,
        {
            if seg_in_box(self.segs[i].0, self.segs[i].1, b, 20_000) {
                assert(runs_in(self@.segs[i as int].0, self@.segs[i as int].1, *b, 20_000));
                return true;
            }
            i += 1;
        }
        i = 0;
        while i < self.boxes.len()
            invariant
                i <= self.boxes@.len(),
                forall|j: int|
                    0 <= j < self.segs@.len() ==> !runs_in(
                        (#[trigger] self.segs@[j]).0,
                        self.segs@[j].1,
                        *b,
                        20_000,
                    ),
                forall|j: int| 0 <= j < i ==> apart(*b, #[trigger] self.boxes@[j]),
            decreases self.boxes@.len() - i,
        {
            let q = &self.boxes[i];
            if !(b.x1 <= q.x0 || q.x1 <= b.x0 || b.y1 <= q.y0 || q.y1 <= b.y0) {
                assert(!apart(*b, self@.boxes[i as int]));
                return true;
            }
            i += 1;
        }
        false
    }
}

/// Width of a text of `n` letters with a margin.
pub open spec fn text_width(n: int) -> int {
    120_650 * geom::hi(n, 1) + 100_000
}

/// Room of a text at its anchor.
pub open spec fn room_at(n: int, a: AtV) -> BBox {
    let w = text_width(n);
    let x0 = if text::has(a.justify, "left"@) {
        a.x
    } else if text::has(a.justify, "right"@) {
        a.x - w
    } else {
        a.x - w / 2
    };
    engine::bx(x0, a.y - 130_000, x0 + w, a.y + 130_000)
}

/// Room of a text centred on its anchor.
pub open spec fn room_centred(n: int, a: AtV) -> BBox {
    let w = text_width(n);
    engine::bx(a.x - w / 2, a.y - 130_000, a.x + w / 2, a.y + 130_000)
}

fn width_of(n: usize) -> (r: i64)
    requires
        n <= TEXT_MAX,
    ensures
        r == text_width(n as int),
        0 <= r <= 0x100_0000_0000,
        r % 2 == 0,
{
    let k: i64 = if n < 1 { 1 } else { n as i64 };
    120_650 * k + 100_000
}

fn hit_at(w: &Around, n: usize, a: &At) -> (r: bool)
    requires
        n <= TEXT_MAX,
        stored_at(a@),
    ensures
        r == box_hit(room_at(n as int, a@), w@),
{
    let t: i64 = width_of(n);
    let x0: i64 = if contains(a.justify.as_str(), "left") {
        a.x
    } else if contains(a.justify.as_str(), "right") {
        a.x - t
    } else {
        a.x - t / 2
    };
    let b = BBox { x0, y0: a.y - 130_000, x1: x0 + t, y1: a.y + 130_000 };
    assert(b == room_at(n as int, a@));
    w.hits(&b)
}

fn hit_centred(w: &Around, n: usize, a: &At) -> (r: bool)
    requires
        n <= TEXT_MAX,
        wide_at(a@),
    ensures
        r == box_hit(room_centred(n as int, a@), w@),
{
    let t: i64 = width_of(n);
    let b = BBox { x0: a.x - t / 2, y0: a.y - 130_000, x1: a.x + t / 2, y1: a.y + 130_000 };
    assert(b == room_centred(n as int, a@));
    w.hits(&b)
}

// ---------------------------------------------------------------- the steps of the placement

/// Reference and value.
#[verifier::ext_equal]
pub struct PairV {
    pub r: AtV,
    pub v: AtV,
}

/// What the placement of a part's texts goes by: the part, its symbol, the symbol its pins come from,
/// and the surroundings.
pub struct TextCtx {
    pub p: PartV,
    pub info: SymbolInfo,
    pub src: SymbolInfo,
    pub around: AroundV,
}

impl TextCtx {
    pub open spec fn pins(&self) -> Seq<Pin> {
        self.src.unit_spec(self.p.unit).pins@
    }

    pub open spec fn flip(&self) -> Mirror {
        symlib::mirror_spec(self.p.mirror)
    }

    pub open spec fn body(&self) -> BBox {
        self.info.unit_spec(self.p.unit).body
    }

    pub open spec fn half(&self) -> (int, int) {
        engine::body_half(self.body(), self.p.rot, self.flip())
    }

    /// The text that is measured as the value.
    pub open spec fn value(&self) -> Seq<char> {
        if self.p.value.len() == 0 {
            self.info.value@
        } else {
            self.p.value
        }
    }

    pub open spec fn connector(&self) -> bool {
        self.info.ref_prefix@ == "J"@
    }

    /// A multi-pin part as it is drawn in the library.
    pub open spec fn upright_ic(&self) -> bool {
        self.pins().len() > 3 && self.p.rot == 0 && self.p.mirror.len() == 0
    }

    pub open spec fn small(&self) -> bool {
        self.p.ref_at is None && self.pins().len() == 2 && !self.connector()
    }

    pub open spec fn flat(&self) -> bool {
        self.small() && engine::lies_flat(self.pins(), self.p.rot, self.flip())
    }

    pub open spec fn upright(&self) -> bool {
        self.small() && !engine::lies_flat(self.pins(), self.p.rot, self.flip())
    }

    pub open spec fn sideways(&self) -> bool {
        self.pins().len() > 2 && (self.p.rot == 90 || self.p.rot == 270)
    }

    /// A power pin leaves on the given side of the unturned symbol.
    pub open spec fn powered(&self, d: Dir) -> bool {
        exists|i: int|
            0 <= i < self.pins().len() && symlib::pin_dir_spec(
                #[trigger] self.pins()[i],
                0,
                Mirror::Plain,
            ) == d && (self.pins()[i].etype@ == "power_in"@ || self.pins()[i].etype@
                == "power_out"@)
    }

    pub open spec fn side(&self, d: Dir) -> bool {
        engine::points(self.pins(), self.p.rot, self.flip(), d)
    }

    pub open spec fn hit_value(&self, a: AtV) -> bool {
        box_hit(room_at(self.value().len() as int, a), self.around)
    }

    pub open spec fn hit_ref(&self, a: AtV) -> bool {
        box_hit(room_at(self.p.id.len() as int, a), self.around)
    }
}

/// Given by hand, else where the library puts them.
pub open spec fn first_pair(c: TextCtx, node: SexpV) -> PairV {
    PairV {
        r: match c.p.ref_at {
            Some(a) => given(a),
            None => library_at(c.p, sexp::prop_of(node, "Reference"@)),
        },
        v: match c.p.val_at {
            Some(a) => given(a),
            None => library_at(c.p, sexp::prop_of(node, "Value"@)),
        },
    }
}

/// More air above and below multi-pin parts.
pub open spec fn with_air(c: TextCtx, a: PairV) -> PairV {
    if c.p.ref_at is None && c.upright_ic() {
        let b = c.body();
        let top = c.p.at.y - geom::hi(b.y0 as int, b.y1 as int);
        let bot = c.p.at.y - geom::lo(b.y0 as int, b.y1 as int);
        let up = if c.powered((0i32, -1i32)) {
            450_000int
        } else {
            200_000
        };
        let down = if c.powered((0i32, 1i32)) {
            450_000int
        } else {
            200_000
        };
        PairV {
            r: if a.r.y < top {
                AtV { y: r4(a.r.y - up), ..a.r }
            } else {
                a.r
            },
            v: if a.v.y > bot {
                AtV { y: r4(a.v.y + down), ..a.v }
            } else {
                a.v
            },
        }
    } else {
        a
    }
}

/// Reference above and value below a lying passive; both on the clear side where only one is.
pub open spec fn lying(c: TextCtx, a: PairV) -> PairV {
    if c.flat() {
        let half = c.half().1 + 140_000;
        let ang = level(c.p.rot);
        let x = c.p.at.x as int;
        let y = c.p.at.y as int;
        let line = |dy: int| AtV { x, y: r4(y + dy), rot: ang, justify: Seq::empty() };
        let up_bad = box_hit(room_centred(c.p.id.len() as int, line(-half)), c.around);
        let down_bad = box_hit(room_centred(c.value().len() as int, line(half)), c.around);
        if up_bad && !down_bad {
            PairV { r: line(half), v: line(half + 240_000) }
        } else if down_bad && !up_bad {
            PairV { r: line(-half - 240_000), v: line(-half) }
        } else {
            PairV { r: line(-half), v: line(half) }
        }
    } else {
        a
    }
}

/// The pair in one of the four slots around the body.
pub open spec fn slot_pair(c: TextCtx, slot: TextSlot) -> PairV {
    let (hx, hy) = c.half();
    let bl = c.p.at.x - hx;
    let br = c.p.at.x + hx;
    let bt = c.p.at.y - hy;
    let bb = c.p.at.y + hy;
    let right = c.side((1i32, 0i32));
    let left = c.side((-1i32, 0i32));
    let (cx, cj) = if right && !left {
        (br, "right"@)
    } else if left && !right {
        (bl, "left"@)
    } else {
        (c.p.at.x as int, ""@)
    };
    let sa = level(c.p.rot);
    match slot {
        TextSlot::Above => PairV {
            r: AtV { x: cx, y: bt - 440_000, rot: sa, justify: cj },
            v: AtV { x: cx, y: bt - 180_000, rot: sa, justify: cj },
        },
        TextSlot::Below => PairV {
            r: AtV { x: cx, y: bb + 180_000, rot: sa, justify: cj },
            v: AtV { x: cx, y: bb + 440_000, rot: sa, justify: cj },
        },
        TextSlot::Right => PairV {
            r: AtV { x: br + 100_000, y: bt + 100_000, rot: sa, justify: "left"@ },
            v: AtV { x: br + 100_000, y: bt + 360_000, rot: sa, justify: "left"@ },
        },
        TextSlot::Left => PairV {
            r: AtV { x: bl - 100_000, y: bt + 100_000, rot: sa, justify: "right"@ },
            v: AtV { x: bl - 100_000, y: bt + 360_000, rot: sa, justify: "right"@ },
        },
    }
}

/// The places tried for a stacked pair, in order.
pub open spec fn stack_tries(c: TextCtx, a: PairV) -> Seq<PairV> {
    (if c.connector() || c.sideways() {
        seq![slot_pair(c, engine::text_slot_spec(c.pins(), c.p.rot, c.flip()))]
    } else {
        Seq::empty()
    }) + seq![a] + (if c.side((1i32, 0i32)) {
        Seq::empty()
    } else {
        seq![slot_pair(c, TextSlot::Right)]
    }) + (if c.side((-1i32, 0i32)) {
        Seq::empty()
    } else {
        seq![slot_pair(c, TextSlot::Left)]
    }) + seq![slot_pair(c, TextSlot::Above)] + seq![slot_pair(c, TextSlot::Below)]
}

pub open spec fn at_r4(a: AtV) -> AtV {
    AtV { x: r4(a.x), y: r4(a.y), ..a }
}

/// The pair as it is stored: rounded, and its justification turned round where it shows mirrored.
pub open spec fn settled(c: TextCtx, t: PairV) -> PairV {
    let r = at_r4(t.r);
    let v = at_r4(t.v);
    if shows_mirrored(r.rot, c.p.rot, c.p.mirror) {
        PairV {
            r: AtV { justify: swapped_lr(r.justify), ..r },
            v: AtV { justify: swapped_lr(v.justify), ..v },
        }
    } else {
        PairV { r, v }
    }
}

/// The first clear place from position `i` on; without one, the pair stays.
pub open spec fn first_clear(c: TextCtx, a: PairV, tries: Seq<PairV>, i: int) -> PairV
    decreases tries.len() - i,
{
    if i < 0 || i >= tries.len() {
        a
    } else if !c.hit_ref(tries[i].r) && !c.hit_value(tries[i].v) {
        settled(c, tries[i])
    } else {
        first_clear(c, a, tries, i + 1)
    }
}

/// Multi-pin parts and connectors: the pair stacked at the first clear place.
pub open spec fn stacked(c: TextCtx, a: PairV) -> PairV {
    if c.p.ref_at is None && c.p.val_at is None && (c.upright_ic() || c.connector() || c.sideways()) {
        first_clear(c, a, stack_tries(c, a), 0)
    } else {
        a
    }
}

/// The other places of a value that is hit.
pub open spec fn value_tries(c: TextCtx, v: AtV) -> Seq<AtV> {
    let b = c.body();
    let top = c.p.at.y - geom::hi(b.y0 as int, b.y1 as int);
    let bot = c.p.at.y - geom::lo(b.y0 as int, b.y1 as int);
    seq![
        AtV { y: r4(top - 260_000), rot: 0, ..v },
        AtV { y: r4(bot + 260_000), rot: 0, ..v },
        AtV { y: r4(top - 420_000), rot: 0, ..v },
    ]
}

pub open spec fn value_from(c: TextCtx, a: PairV, tries: Seq<AtV>, i: int) -> PairV
    decreases tries.len() - i,
{
    if i < 0 || i >= tries.len() {
        a
    } else if !c.hit_value(tries[i]) && geom::mag(tries[i].y - a.r.y) > 150_000 {
        PairV { v: tries[i], ..a }
    } else {
        value_from(c, a, tries, i + 1)
    }
}

/// A value that is hit moves above or below the body, where that is clear.
pub open spec fn moved_value(c: TextCtx, a: PairV) -> PairV {
    if c.p.val_at is None && c.hit_value(a.v) {
        value_from(c, a, value_tries(c, a.v), 0)
    } else {
        a
    }
}

/// Beside an upright passive.
pub open spec fn beside(c: TextCtx, a: PairV) -> PairV {
    if c.upright() {
        let right = c.p.at.x + c.half().0 + 90_000;
        let ang = level(c.p.rot);
        let j = if shows_mirrored(ang, c.p.rot, c.p.mirror) {
            "right"@
        } else {
            "left"@
        };
        PairV {
            r: AtV { x: r4(right), y: r4(c.p.at.y - 130_000), rot: ang, justify: j },
            v: AtV { x: r4(right), y: r4(c.p.at.y + 130_000), rot: ang, justify: j },
        }
    } else {
        a
    }
}

/// Where reference and value stand.
pub open spec fn text_places(c: TextCtx, node: SexpV) -> PairV {
    beside(c, moved_value(c, stacked(c, lying(c, with_air(c, first_pair(c, node))))))
}

/// Reference and value.
pub struct Pair {
    pub r: At,
    pub v: At,
}

impl View for Pair {
    type V = PairV;

    open spec fn view(&self) -> PairV {
        PairV { r: self.r@, v: self.v@ }
    }
}

pub open spec fn pair_ok(a: PairV) -> bool {
    at_ok(a.r) && at_ok(a.v)
}

/// What the placement of a part's texts goes by.
pub struct Placer<'a> {
    pub p: &'a Part,
    pub info: &'a SymbolInfo,
    pub src: &'a SymbolInfo,
    pub around: &'a Around,
}

impl<'a> Placer<'a> {
    pub open spec fn ctx(&self) -> TextCtx {
        TextCtx { p: self.p@, info: *self.info, src: *self.src, around: self.around@ }
    }

    pub open spec fn wf(&self) -> bool {
        &&& model::part_ok(self.p@)
        &&& self.info.wf()
        &&& self.src.wf()
        &&& self.p.id@.len() <= TEXT_MAX
        &&& self.ctx().value().len() <= TEXT_MAX
    }

    fn pins(&self) -> (r: &Vec<Pin>)
        requires
            self.wf(),
        ensures
            r@ == self.ctx().pins(),
            forall|i: int| 0 <= i < r@.len() ==> symlib::pin_ok(#[trigger] r@[i]),
    {
        self.src.pins_for_unit(self.p.unit)
    }

    fn flip(&self) -> (m: Mirror)
        ensures
            m == self.ctx().flip(),
    {
        mirror_of(self.p.mirror.as_str())
    }

    fn half(&self) -> (r: (i64, i64))
        requires
            self.wf(),
        ensures
            (r.0 as int, r.1 as int) == self.ctx().half(),
            0 <= r.0 <= symlib::NEAR_MAX + 10,
            0 <= r.1 <= symlib::NEAR_MAX + 10,
    {
        rot_body(self.info, self.p.unit, self.p.rot, self.flip())
    }

    fn value_len(&self) -> (n: usize)
        requires
            self.wf(),
        ensures
            n == self.ctx().value().len(),
            n <= TEXT_MAX,
    {
        if self.p.value.as_str().unicode_len() == 0 {
            self.info.value.as_str().unicode_len()
        } else {
            self.p.value.as_str().unicode_len()
        }
    }

    fn id_len(&self) -> (n: usize)
        requires
            self.wf(),
        ensures
            n == self.p@.id.len(),
            n <= TEXT_MAX,
    {
        self.p.id.as_str().unicode_len()
    }

    fn is_connector(&self) -> (r: bool)
        ensures
            r == self.ctx().connector(),
    {
        same(self.info.ref_prefix.as_str(), "J")
    }

    fn is_upright_ic(&self) -> (r: bool)
        requires
            self.wf(),
        ensures
            r == self.ctx().upright_ic(),
    {
        self.pins().len() > 3 && self.p.rot == 0 && self.p.mirror.as_str().unicode_len() == 0
    }

    fn is_sideways(&self) -> (r: bool)
        requires
            self.wf(),
        ensures
            r == self.ctx().sideways(),
    {
        self.pins().len() > 2 && (self.p.rot == 90 || self.p.rot == 270)
    }

    fn is_small(&self) -> (r: bool)
        requires
            self.wf(),
        ensures
            r == self.ctx().small(),
    {
        self.p.ref_at.is_none() && self.pins().len() == 2 && !self.is_connector()
    }

    fn is_level(&self) -> (r: bool)
        requires
            self.wf(),
        ensures
            r == engine::lies_flat(self.ctx().pins(), self.ctx().p.rot, self.ctx().flip()),
    {
        let r = engine::two_pin_axis(self.src, self.p.unit, self.p.rot, self.p.mirror.as_str());
        proof {
            reveal_strlit("h");
            reveal_strlit("v");
            assert("h"@[0] != "v"@[0]);
        }
        same(r, "h")
    }

    fn is_powered(&self, d: Dir) -> (r: bool)
        requires
            self.wf(),
        ensures
            r == self.ctx().powered(d),
    {
        let pins = self.pins();
        let ghost ps = self.ctx().pins();
        let mut i: usize = 0;
        while i < pins.len()
            invariant
                i <= pins@.len(),
                pins@ == ps,
                ps == self.ctx().pins(),
                forall|j: int|
                    0 <= j < i ==> !(symlib::pin_dir_spec(#[trigger] ps[j], 0, Mirror::Plain) == d && (
                    ps[j].etype@ == "power_in"@ || ps[j].etype@ == "power_out"@)),
            decreases pins@.len() - i,
        {
            let e: Dir = turned_dir(pins[i].angle, 0, Mirror::Plain);
            if e.0 == d.0 && e.1 == d.1 && (same(pins[i].etype.as_str(), "power_in") || same(
                pins[i].etype.as_str(),
                "power_out",
            )) {
                assert(symlib::pin_dir_spec(ps[i as int], 0, Mirror::Plain) == d);
                return true;
            }
            i += 1;
        }
        false
    }

    fn on_side(&self, d: Dir) -> (r: bool)
        requires
            self.wf(),
        ensures
            r == self.ctx().side(d),
    {
        points_to(self.pins(), self.p.rot, self.flip(), d)
    }

    fn start(&self, node: &Sexp) -> (a: Pair)
        requires
            self.wf(),
            sexp::ok(node@),
        ensures
            a@ == first_pair(self.ctx(), node@),
            pair_ok(a@),
    {
        let r = match &self.p.ref_at {
            Some(x) => from_anchor(x),
            None => library_anchor(
                self.p.at,
                self.p.rot,
                self.p.mirror.as_str(),
                node.prop("Reference"),
                Ghost(self.p@),
            ),
        };
        let v = match &self.p.val_at {
            Some(x) => from_anchor(x),
            None => library_anchor(
                self.p.at,
                self.p.rot,
                self.p.mirror.as_str(),
                node.prop("Value"),
                Ghost(self.p@),
            ),
        };
        Pair { r, v }
    }

    fn add_air(&self, a: Pair) -> (b: Pair)
        requires
            self.wf(),
            pair_ok(a@),
        ensures
            b@ == with_air(self.ctx(), a@),
            wide_pair(b@),
    {
        let mut a = a;
        if self.p.ref_at.is_none() && self.is_upright_ic() {
            let ghost a0 = a@;
            let body = self.info.unit_info(self.p.unit).body;
            let top: i64 = self.p.at.y - geom::max_i(body.y0, body.y1);
            let bot: i64 = self.p.at.y - geom::min_i(body.y0, body.y1);
            let up: i64 = if self.is_powered((0, -1)) { 450_000 } else { 200_000 };
            let down: i64 = if self.is_powered((0, 1)) { 450_000 } else { 200_000 };
            if a.r.y < top {
                a.r.y = round4(a.r.y - up);
            }
            if a.v.y > bot {
                a.v.y = round4(a.v.y + down);
            }
            assert(a@ =~= with_air(self.ctx(), a0));
        }
        a
    }

    fn line(&self, dy: i64) -> (r: At)
        requires
            self.wf(),
            -0x200_0000_0000 <= dy <= 0x200_0000_0000,
        ensures
            r@ == (AtV {
                x: self.p.at.x as int,
                y: r4(self.p.at.y + dy),
                rot: level(self.p.rot as int),
                justify: Seq::empty(),
            }),
            at_ok(r@),
    {
        let justify = String::new();
        assert(justify@ =~= Seq::empty());
        At { x: self.p.at.x, y: round4(self.p.at.y + dy), rot: level_of(self.p.rot), justify }
    }

    fn lay(&self, a: Pair) -> (b: Pair)
        requires
            self.wf(),
            wide_pair(a@),
        ensures
            b@ == lying(self.ctx(), a@),
            wide_pair(b@),
    {
        if !(self.is_small() && self.is_level()) {
            return a;
        }
        let half: i64 = self.half().1 + 140_000;
        let r = self.line(-half);
        let v = self.line(half);
        let up_bad = hit_centred(self.around, self.id_len(), &r);
        let down_bad = hit_centred(self.around, self.value_len(), &v);
        if up_bad && !down_bad {
            Pair { r: v, v: self.line(half + 240_000) }
        } else if down_bad && !up_bad {
            Pair { r: self.line(-half - 240_000), v: r }
        } else {
            Pair { r, v }
        }
    }
}

/// Texts that may have been given more air.
pub open spec fn wide_at(a: AtV) -> bool {
    -2_100_000_001_000_000 <= a.x <= 2_100_000_001_000_000 && -2_100_000_001_000_000 <= a.y
        <= 2_100_000_001_000_000
}

pub open spec fn wide_pair(a: PairV) -> bool {
    wide_at(a.r) && wide_at(a.v)
}

/// Texts once they are stored.
pub open spec fn stored_at(a: AtV) -> bool {
    -2_100_000_002_000_000 <= a.x <= 2_100_000_002_000_000 && -2_100_000_002_000_000 <= a.y
        <= 2_100_000_002_000_000
}

pub open spec fn stored_pair(a: PairV) -> bool {
    stored_at(a.r) && stored_at(a.v)
}

impl<'a> Placer<'a> {
    fn slot(&self, slot: TextSlot) -> (a: Pair)
        requires
            self.wf(),
        ensures
            a@ == slot_pair(self.ctx(), slot),
            wide_pair(a@),
    {
        let (hx, hy) = self.half();
        let at = self.p.at;
        let bl: i64 = at.x - hx;
        let br: i64 = at.x + hx;
        let bt: i64 = at.y - hy;
        let bb: i64 = at.y + hy;
        let right = self.on_side((1, 0));
        let left = self.on_side((-1, 0));
        let (cx, cj): (i64, &str) = if right && !left {
            (br, "right")
        } else if left && !right {
            (bl, "left")
        } else {
            (at.x, "")
        };
        let sa: i32 = level_of(self.p.rot);
        let (x, y1, y2, j): (i64, i64, i64, &str) = match slot {
            TextSlot::Above => (cx, bt - 440_000, bt - 180_000, cj),
            TextSlot::Below => (cx, bb + 180_000, bb + 440_000, cj),
            TextSlot::Right => (br + 100_000, bt + 100_000, bt + 360_000, "left"),
            TextSlot::Left => (bl - 100_000, bt + 100_000, bt + 360_000, "right"),
        };
        Pair {
            r: At { x, y: y1, rot: sa, justify: j.to_owned() },
            v: At { x, y: y2, rot: sa, justify: j.to_owned() },
        }
    }

    fn is_clear(&self, t: &Pair) -> (r: bool)
        requires
            self.wf(),
            wide_pair(t@),
        ensures
            r == (!self.ctx().hit_ref(t@.r) && !self.ctx().hit_value(t@.v)),
    {
        !hit_at(self.around, self.id_len(), &t.r) && !hit_at(self.around, self.value_len(), &t.v)
    }

    fn settle(&self, t: Pair) -> (a: Pair)
        requires
            wide_pair(t@),
        ensures
            a@ == settled(self.ctx(), t@),
            stored_pair(a@),
    {
        let mut r = At { x: round4(t.r.x), y: round4(t.r.y), rot: t.r.rot, justify: t.r.justify };
        let mut v = At { x: round4(t.v.x), y: round4(t.v.y), rot: t.v.rot, justify: t.v.justify };
        if is_mirrored(r.rot, self.p.rot, self.p.mirror.as_str()) {
            r.justify = swap_lr(r.justify.as_str());
            v.justify = swap_lr(v.justify.as_str());
        }
        Pair { r, v }
    }

    fn tries(&self, a: &Pair) -> (r: Vec<Pair>)
        requires
            self.wf(),
            wide_pair(a@),
        ensures
            pairs_v(r@) == stack_tries(self.ctx(), a@),
            forall|i: int| 0 <= i < r@.len() ==> wide_pair((#[trigger] r@[i])@),
    {
        let ghost c = self.ctx();
        let mut r: Vec<Pair> = Vec::new();
        let ghost mut want: Seq<PairV> = Seq::empty();
        assert(pairs_v(r@) =~= want);
        if self.is_connector() || self.is_sideways() {
            let s = text_slot(self.pins(), self.p.rot, self.flip());
            push_pair(&mut r, self.slot(s));
            proof {
                want = want.push(slot_pair(c, s));
            }
        }
        assert(pairs_v(r@) =~= (if c.connector() || c.sideways() {
            seq![slot_pair(c, engine::text_slot_spec(c.pins(), c.p.rot, c.flip()))]
        } else {
            Seq::<PairV>::empty()
        }));
        push_pair(&mut r, Pair { r: a.r.dup(), v: a.v.dup() });
        if !self.on_side((1, 0)) {
            push_pair(&mut r, self.slot(TextSlot::Right));
        }
        if !self.on_side((-1, 0)) {
            push_pair(&mut r, self.slot(TextSlot::Left));
        }
        push_pair(&mut r, self.slot(TextSlot::Above));
        push_pair(&mut r, self.slot(TextSlot::Below));
        assert(pairs_v(r@) =~= stack_tries(c, a@));
        r
    }

    fn stack(&self, a: Pair) -> (b: Pair)
        requires
            self.wf(),
            wide_pair(a@),
        ensures
            b@ == stacked(self.ctx(), a@),
            stored_pair(b@),
    {
        if !(self.p.ref_at.is_none() && self.p.val_at.is_none() && (self.is_upright_ic()
            || self.is_connector() || self.is_sideways())) {
            return a;
        }
        let tries = self.tries(&a);
        let ghost c = self.ctx();
        let ghost ts = stack_tries(c, a@);
        let mut found: Option<usize> = None;
        let mut i: usize = 0;
        while found.is_none() && i < tries.len()
            invariant
                i <= tries@.len(),
                self.wf(),
                c == self.ctx(),
                ts == pairs_v(tries@),
                forall|i: int| 0 <= i < tries@.len() ==> wide_pair((#[trigger] tries@[i])@),
                found is None ==> first_clear(c, a@, ts, 0) == first_clear(c, a@, ts, i as int),
                found is Some ==> found->0 < tries@.len() && first_clear(c, a@, ts, 0) == settled(
                    c,
                    ts[found->0 as int],
                ),
            decreases (if found is None { 1int } else { 0 }), tries@.len() - i,
        {
            assert(ts[i as int] == tries@[i as int]@);
            assert(wide_pair(tries@[i as int]@));
            if self.is_clear(&tries[i]) {
                found = Some(i);
            } else {
                i += 1;
            }
        }
        match found {
            Some(k) => {
                let t = &tries[k];
                assert(wide_pair(tries@[k as int]@));
                self.settle(Pair { r: t.r.dup(), v: t.v.dup() })
            },
            None => a,
        }
    }

    fn move_value(&self, a: Pair) -> (b: Pair)
        requires
            self.wf(),
            stored_pair(a@),
        ensures
            b@ == moved_value(self.ctx(), a@),
            stored_pair(b@),
    {
        if self.p.val_at.is_some() || !hit_at(self.around, self.value_len(), &a.v) {
            return a;
        }
        let ghost c = self.ctx();
        let ghost ts = value_tries(c, a@.v);
        let body = self.info.unit_info(self.p.unit).body;
        let top: i64 = self.p.at.y - geom::max_i(body.y0, body.y1);
        let bot: i64 = self.p.at.y - geom::min_i(body.y0, body.y1);
        let ys: [i64; 3] = [round4(top - 260_000), round4(bot + 260_000), round4(top - 420_000)];
        let mut i: usize = 0;
        while i < 3
            invariant
                i <= 3,
                self.wf(),
                c == self.ctx(),
                stored_pair(a@),
                ts == value_tries(c, a@.v),
                ts.len() == 3,
                forall|k: int|
                    0 <= k < 3 ==> #[trigger] ts[k] == (AtV { y: ys@[k] as int, rot: 0, ..a@.v }),
                forall|k: int|
                    0 <= k < 3 ==> -1_200_000_000_000_000 <= #[trigger] ys@[k]
                        <= 1_200_000_000_000_000,
                value_from(c, a@, ts, 0) == value_from(c, a@, ts, i as int),
                moved_value(c, a@) == value_from(c, a@, ts, 0),
            decreases 3 - i,
        {
            let y: i64 = ys[i];
            assert(-1_200_000_000_000_000 <= ys@[i as int] <= 1_200_000_000_000_000);
            assert(ts[i as int] == (AtV { y: ys@[i as int] as int, rot: 0, ..a@.v }));
            let cand = At { x: a.v.x, y, rot: 0, justify: a.v.justify.clone() };
            assert(cand@ =~= ts[i as int]);
            if !hit_at(self.around, self.value_len(), &cand) && geom::abs_i(y - a.r.y) > 150_000 {
                return Pair { r: a.r, v: cand };
            }
            i += 1;
        }
        a
    }

    fn put_beside(&self, a: Pair) -> (b: Pair)
        requires
            self.wf(),
            stored_pair(a@),
        ensures
            b@ == beside(self.ctx(), a@),
            stored_pair(b@),
    {
        if !(self.is_small() && !self.is_level()) {
            return a;
        }
        let right: i64 = self.p.at.x + self.half().0 + 90_000;
        let ang: i32 = level_of(self.p.rot);
        let j = if is_mirrored(ang, self.p.rot, self.p.mirror.as_str()) {
            "right"
        } else {
            "left"
        };
        let x: i64 = round4(right);
        Pair {
            r: At { x, y: round4(self.p.at.y - 130_000), rot: ang, justify: j.to_owned() },
            v: At { x, y: round4(self.p.at.y + 130_000), rot: ang, justify: j.to_owned() },
        }
    }

    /// Where reference and value stand.
    pub fn places(&self, node: &Sexp) -> (a: Pair)
        requires
            self.wf(),
            sexp::ok(node@),
        ensures
            a@ == text_places(self.ctx(), node@),
            stored_pair(a@),
    {
        let a = self.start(node);
        let a = self.add_air(a);
        let a = self.lay(a);
        let a = self.stack(a);
        let a = self.move_value(a);
        self.put_beside(a)
    }
}

pub open spec fn pairs_v(v: Seq<Pair>) -> Seq<PairV> {
    Seq::new(v.len(), |i: int| v[i]@)
}

fn push_pair(v: &mut Vec<Pair>, a: Pair)
    requires
        wide_pair(a@),
        forall|i: int| 0 <= i < old(v)@.len() ==> wide_pair((#[trigger] old(v)@[i])@),
    ensures
        pairs_v(final(v)@) == pairs_v(old(v)@).push(a@),
        forall|i: int| 0 <= i < final(v)@.len() ==> wide_pair((#[trigger] final(v)@[i])@),
{
    let ghost v0 = v@;
    let ghost av = a@;
    v.push(a);
    assert(pairs_v(v@) =~= pairs_v(v0).push(av));
}

} // verus!
