//! Symbols of the part libraries, as the layout reads them.
use crate::geom;
use crate::geom::{floor_mod, max_i, min_i, round_quotient, BBox, Dir, Mirror, Pt};
use crate::text::same;
use std::sync::Arc;
use vstd::prelude::*;

verus! {

/// Largest magnitude of a symbol's own coordinates and of a placement.
pub const NEAR_MAX: i64 = 0x100_0000_0000;

/// Longest text, in characters, that the layout measures.
pub const TEXT_MAX: usize = 0x40_0000;

pub open spec fn near(v: int) -> bool {
    -NEAR_MAX <= v <= NEAR_MAX
}

pub open spec fn near_pt(p: Pt) -> bool {
    near(p.x as int) && near(p.y as int)
}

pub open spec fn near_box(b: BBox) -> bool {
    near(b.x0 as int) && near(b.y0 as int) && near(b.x1 as int) && near(b.y1 as int)
}

/// One pin of a symbol, in library coordinates (y axis up). `angle` is the direction from the
/// connection point into the body, in degrees.
#[derive(Clone, Debug)]
pub struct Pin {
    pub number: String,
    pub name: String,
    pub x: i64,
    pub y: i64,
    pub angle: i32,
    pub hidden: bool,
    /// Electrical type, such as `power_in`.
    pub etype: String,
}

/// A property text of a symbol, in library coordinates.
#[derive(Clone, Debug)]
pub struct LibProp {
    pub name: String,
    pub x: i64,
    pub y: i64,
    pub rot: i32,
    pub justify: String,
}

/// What one unit of a symbol draws: its pins, the box with pins and the box of the body alone.
#[derive(Clone, Debug)]
pub struct UnitInfo {
    pub unit: i32,
    pub pins: Vec<Pin>,
    pub bbox: BBox,
    pub body: BBox,
}

#[derive(Clone, Debug)]
pub struct SymbolInfo {
    pub lib_id: String,
    pub ref_prefix: String,
    pub power: bool,
    /// The units of the symbol; the first stands in for a unit number that is not listed.
    pub units: Vec<UnitInfo>,
    pub props: Vec<LibProp>,
    /// All pins, in the order of the library.
    pub pins: Vec<Pin>,
    pub value: String,
    pub footprint: String,
    pub datasheet: String,
    pub description: String,
}

impl Pin {
    /// A copy of the pin.
    pub fn dup(&self) -> (r: Pin)
        ensures
            r == *self,
    {
        Pin {
            number: self.number.clone(),
            name: self.name.clone(),
            x: self.x,
            y: self.y,
            angle: self.angle,
            hidden: self.hidden,
            etype: self.etype.clone(),
        }
    }
}

pub open spec fn pin_ok(p: Pin) -> bool {
    near(p.x as int) && near(p.y as int)
}

pub open spec fn unit_ok(u: UnitInfo) -> bool {
    &&& near_box(u.bbox)
    &&& near_box(u.body)
    &&& forall|i: int| 0 <= i < u.pins@.len() ==> pin_ok(#[trigger] u.pins@[i])
}

/// The first listed unit from `i` on with the number `unit`, or 0.
pub open spec fn unit_from(us: Seq<UnitInfo>, unit: int, i: int) -> int
    decreases us.len() - i,
{
    if i < 0 || i >= us.len() {
        0
    } else if us[i].unit == unit {
        i
    } else {
        unit_from(us, unit, i + 1)
    }
}

/// The first property from `i` on with the name `k`, or the length.
pub open spec fn prop_from(ps: Seq<LibProp>, k: Seq<char>, i: int) -> int
    decreases ps.len() - i,
{
    if i < 0 || i >= ps.len() {
        ps.len() as int
    } else if ps[i].name@ == k {
        i
    } else {
        prop_from(ps, k, i + 1)
    }
}

impl SymbolInfo {
    pub open spec fn wf(&self) -> bool {
        &&& self.units@.len() > 0
        &&& forall|i: int| 0 <= i < self.units@.len() ==> unit_ok(#[trigger] self.units@[i])
        &&& forall|i: int| 0 <= i < self.props@.len() ==> near((#[trigger] self.props@[i]).x as int)
            && near(self.props@[i].y as int)
        &&& forall|i: int| 0 <= i < self.pins@.len() ==> pin_ok(#[trigger] self.pins@[i])
        &&& self.value@.len() <= TEXT_MAX
    }

    /// What the unit draws.
    pub open spec fn unit_spec(&self, unit: int) -> UnitInfo {
        self.units@[unit_from(self.units@, unit, 0)]
    }

    pub open spec fn prop_spec(&self, k: Seq<char>) -> Option<LibProp> {
        let i = prop_from(self.props@, k, 0);
        if i < self.props@.len() {
            Some(self.props@[i])
        } else {
            None
        }
    }

    /// What the unit draws: the listed unit of that number, else the first one.
    pub fn unit_info(&self, unit: i32) -> (r: &UnitInfo)
        requires
            self.wf(),
        ensures
            *r == self.unit_spec(unit as int),
            unit_ok(*r),
    {
        let mut i: usize = 0;
        while i < self.units.len()
            invariant
                i <= self.units@.len(),
                self.wf(),
                unit_from(self.units@, unit as int, 0) == unit_from(
                    self.units@,
                    unit as int,
                    i as int,
                ),
            decreases self.units@.len() - i,
        {
            if self.units[i].unit == unit {
                return &self.units[i];
            }
            i += 1;
        }
        &self.units[0]
    }

    /// The pins that the unit draws.
    pub fn pins_for_unit(&self, unit: i32) -> (r: &Vec<Pin>)
        requires
            self.wf(),
        ensures
            *r == self.unit_spec(unit as int).pins,
            forall|i: int| 0 <= i < r@.len() ==> pin_ok(#[trigger] r@[i]),
    {
        &self.unit_info(unit).pins
    }

    /// The library's property text of a given name.
    pub fn lib_prop(&self, name: &str) -> (r: Option<&LibProp>)
        requires
            self.wf(),
        ensures
            match r {
                Some(p) => self.prop_spec(name@) == Some(*p) && near(p.x as int) && near(p.y as int),
                None => self.prop_spec(name@) is None,
            },
    {
        let key = name.to_owned();
        let mut i: usize = 0;
        while i < self.props.len()
            invariant
                i <= self.props@.len(),
                key@ == name@,
                self.wf(),
                prop_from(self.props@, name@, 0) == prop_from(self.props@, name@, i as int),
            decreases self.props@.len() - i,
        {
            if self.props[i].name == key {
                return Some(&self.props[i]);
            }
            i += 1;
        }
        None
    }
}

/// The symbols that can be looked up by library id.
#[derive(Clone, Debug)]
pub struct SymbolIndex {
    pub symbols: Vec<Arc<SymbolInfo>>,
}

/// The first symbol from `i` on with the library id `k`, or the length.
pub open spec fn symbol_from(ss: Seq<Arc<SymbolInfo>>, k: Seq<char>, i: int) -> int
    decreases ss.len() - i,
{
    if i < 0 || i >= ss.len() {
        ss.len() as int
    } else if ss[i].lib_id@ == k {
        i
    } else {
        symbol_from(ss, k, i + 1)
    }
}

impl SymbolIndex {
    pub open spec fn wf(&self) -> bool {
        forall|i: int| 0 <= i < self.symbols@.len() ==> (#[trigger] self.symbols@[i]).wf()
    }

    pub open spec fn found(&self, k: Seq<char>) -> Option<Arc<SymbolInfo>> {
        let i = symbol_from(self.symbols@, k, 0);
        if i < self.symbols@.len() {
            Some(self.symbols@[i])
        } else {
            None
        }
    }

    /// The first symbol with the given library id.
    pub fn get(&self, lib: &str) -> (r: Option<&Arc<SymbolInfo>>)
        ensures
            match r {
                Some(s) => self.found(lib@) == Some(*s),
                None => self.found(lib@) is None,
            },
            self.wf() && r is Some ==> r->0.wf(),
    {
        let key = lib.to_owned();
        let mut i: usize = 0;
        while i < self.symbols.len()
            invariant
                i <= self.symbols@.len(),
                key@ == lib@,
                symbol_from(self.symbols@, lib@, 0) == symbol_from(self.symbols@, lib@, i as int),
            decreases self.symbols@.len() - i,
        {
            if self.symbols[i].lib_id == key {
                return Some(&self.symbols[i]);
            }
            i += 1;
        }
        None
    }
}

/// The mirroring that a text asks for: `x`, `y`, or none.
pub open spec fn mirror_spec(s: Seq<char>) -> Mirror {
    if s == "x"@ {
        Mirror::X
    } else if s == "y"@ {
        Mirror::Y
    } else {
        Mirror::Plain
    }
}

pub fn mirror_of(s: &str) -> (m: Mirror)
    ensures
        m == mirror_spec(s@),
{
    if same(s, "x") {
        Mirror::X
    } else if same(s, "y") {
        Mirror::Y
    } else {
        Mirror::Plain
    }
}

/// A point of library space (y up) as an offset on the sheet (y down): rotated counter-clockwise
/// by a quarter-turn angle, then mirrored, then flipped, and rounded to a tenth of a micrometre. An
/// angle that is no multiple of a quarter turn does not rotate.
#[verifier::opaque]
pub open spec fn turned(x: int, y: int, rot: int, m: Mirror) -> (int, int) {
    let r = rot % 360;
    let (a, b) = if r == 90 {
        (-y, x)
    } else if r == 180 {
        (-x, -y)
    } else if r == 270 {
        (y, -x)
    } else {
        (x, y)
    };
    let (c, d) = match m {
        Mirror::Plain => (a, b),
        Mirror::X => (a, -b),
        Mirror::Y => (-a, b),
    };
    (geom::nearest_multiple(c, 10), geom::nearest_multiple(-d, 10))
}

/// Largest magnitude of a turned point.
pub open spec fn turned_ok(v: int) -> bool {
    -NEAR_MAX - 10 <= v <= NEAR_MAX + 10
}

pub proof fn lemma_turned(x: int, y: int, rot: int, m: Mirror)
    requires
        near(x),
        near(y),
    ensures
        turned_ok(turned(x, y, rot, m).0),
        turned_ok(turned(x, y, rot, m).1),
{
    reveal(turned);
    assert(forall|v: int| near(v) ==> turned_ok(#[trigger] geom::nearest_multiple(v, 10)));
}

/// Maps a point of library space to an offset on the sheet.
pub fn rot_point(x: i64, y: i64, rot: i32, m: Mirror) -> (r: (i64, i64))
    requires
        near(x as int),
        near(y as int),
    ensures
        (r.0 as int, r.1 as int) == turned(x as int, y as int, rot as int, m),
        turned_ok(r.0 as int),
        turned_ok(r.1 as int),
{
    let q: i64 = floor_mod(rot as i64, 360);
    let (a, b): (i64, i64) = if q == 90 {
        (-y, x)
    } else if q == 180 {
        (-x, -y)
    } else if q == 270 {
        (y, -x)
    } else {
        (x, y)
    };
    let (c, d): (i64, i64) = match m {
        Mirror::Plain => (a, b),
        Mirror::X => (a, -b),
        Mirror::Y => (-a, b),
    };
    proof {
        lemma_turned(x as int, y as int, rot as int, m);
        reveal(turned);
    }
    (round_quotient(c, 10) * 10, round_quotient(-d, 10) * 10)
}

/// The outward direction of a pin on a placed symbol.
#[verifier::opaque]
pub open spec fn dir_spec(angle: int, rot: int, m: Mirror) -> Dir {
    let a = (angle + rot) % 360;
    let b = match m {
        Mirror::Plain => a,
        Mirror::X => (-a) % 360,
        Mirror::Y => (180 - a) % 360,
    };
    if b == 0 {
        (-1i32, 0i32)
    } else if b == 180 {
        (1i32, 0i32)
    } else if b == 90 {
        (0i32, 1i32)
    } else {
        (0i32, -1i32)
    }
}

pub fn turned_dir(angle: i32, rot: i32, m: Mirror) -> (d: Dir)
    ensures
        d == dir_spec(angle as int, rot as int, m),
        geom::is_dir(d),
{
    proof {
        reveal(dir_spec);
    }
    let a: i64 = floor_mod(angle as i64 + rot as i64, 360);
    let b: i64 = match m {
        Mirror::Plain => a,
        Mirror::X => floor_mod(-a, 360),
        Mirror::Y => floor_mod(180 - a, 360),
    };
    if b == 0 {
        (-1, 0)
    } else if b == 180 {
        (1, 0)
    } else if b == 90 {
        (0, 1)
    } else {
        (0, -1)
    }
}

/// Where a pin of a symbol placed at `at` connects.
pub open spec fn pin_at(p: Pin, at: Pt, rot: int, m: Mirror) -> Pt {
    let t = turned(p.x as int, p.y as int, rot, m);
    Pt { x: (at.x + t.0) as i64, y: (at.y + t.1) as i64 }
}

pub open spec fn pin_dir_spec(p: Pin, rot: int, m: Mirror) -> Dir {
    dir_spec(p.angle as int, rot, m)
}

/// Where the pins of a placed symbol can be.
pub open spec fn tip(v: int) -> bool {
    -0x200_0000_0100 <= v <= 0x200_0000_0100
}

pub open spec fn tip_pt(p: Pt) -> bool {
    tip(p.x as int) && tip(p.y as int)
}

/// Where the wires of a block can be.
pub open spec fn wire_pt(p: Pt) -> bool {
    -0x280_0000_0000 <= p.x <= 0x280_0000_0000 && -0x280_0000_0000 <= p.y <= 0x280_0000_0000
}

/// Where a symbol on a wire can be.
pub open spec fn mark_pt(p: Pt) -> bool {
    -0x2f0_0000_0000 <= p.x <= 0x2f0_0000_0000 && -0x2f0_0000_0000 <= p.y <= 0x2f0_0000_0000
}

/// Where anything drawn next to them can be.
pub open spec fn wide(v: int) -> bool {
    -0x300_0000_0000 <= v <= 0x300_0000_0000
}

pub open spec fn wide_pt(p: Pt) -> bool {
    wide(p.x as int) && wide(p.y as int)
}

pub open spec fn wide_box(b: BBox) -> bool {
    wide(b.x0 as int) && wide(b.y0 as int) && wide(b.x1 as int) && wide(b.y1 as int)
}

pub fn pin_point(p: &Pin, at: Pt, rot: i32, m: Mirror) -> (r: Pt)
    requires
        pin_ok(*p),
        near_pt(at),
    ensures
        r == pin_at(*p, at, rot as int, m),
        tip_pt(r),
{
    let t: (i64, i64) = rot_point(p.x, p.y, rot, m);
    Pt { x: at.x + t.0, y: at.y + t.1 }
}

/// The box of four turned corners around an anchor.
#[verifier::opaque]
pub open spec fn turned_box(bb: BBox, at: Pt, rot: int, m: Mirror) -> BBox {
    let p = turned(bb.x0 as int, bb.y0 as int, rot, m);
    let q = turned(bb.x1 as int, bb.y1 as int, rot, m);
    let r = turned(bb.x0 as int, bb.y1 as int, rot, m);
    let s = turned(bb.x1 as int, bb.y0 as int, rot, m);
    BBox {
        x0: (at.x + geom::lo(geom::lo(p.0, q.0), geom::lo(r.0, s.0))) as i64,
        y0: (at.y + geom::lo(geom::lo(p.1, q.1), geom::lo(r.1, s.1))) as i64,
        x1: (at.x + geom::hi(geom::hi(p.0, q.0), geom::hi(r.0, s.0))) as i64,
        y1: (at.y + geom::hi(geom::hi(p.1, q.1), geom::hi(r.1, s.1))) as i64,
    }
}

pub fn turn_box(bb: &BBox, at: Pt, rot: i32, m: Mirror) -> (b: BBox)
    requires
        near_box(*bb),
        near_pt(at),
    ensures
        b == turned_box(*bb, at, rot as int, m),
        wide_box(b),
{
    proof {
        reveal(turned_box);
    }
    let p: (i64, i64) = rot_point(bb.x0, bb.y0, rot, m);
    let q: (i64, i64) = rot_point(bb.x1, bb.y1, rot, m);
    let r: (i64, i64) = rot_point(bb.x0, bb.y1, rot, m);
    let s: (i64, i64) = rot_point(bb.x1, bb.y0, rot, m);
    BBox {
        x0: at.x + min_i(min_i(p.0, q.0), min_i(r.0, s.0)),
        y0: at.y + min_i(min_i(p.1, q.1), min_i(r.1, s.1)),
        x1: at.x + max_i(max_i(p.0, q.0), max_i(r.0, s.0)),
        y1: at.y + max_i(max_i(p.1, q.1), max_i(r.1, s.1)),
    }
}

/// Turning a symbol by half a turn reverses every pin's direction.
pub proof fn half_turn_reverses(angle: int, rot: int, m: Mirror)
    requires
        (angle + rot) % 90 == 0,
    ensures
        dir_spec(angle, rot + 180, m) == (
            (-dir_spec(angle, rot, m).0) as i32,
            (-dir_spec(angle, rot, m).1) as i32,
        ),
{
    reveal(dir_spec);
    let a = (angle + rot) % 360;
    assert(a == 0 || a == 90 || a == 180 || a == 270);
    assert((angle + rot + 180) % 360 == (a + 180) % 360);
}

/// Four quarter turns bring a pin back.
pub proof fn full_turn_is_identity(p: Pin, at: Pt, rot: int, m: Mirror)
    ensures
        pin_at(p, at, rot + 360, m) == pin_at(p, at, rot, m),
        pin_dir_spec(p, rot + 360, m) == pin_dir_spec(p, rot, m),
{
    reveal(turned);
    reveal(dir_spec);
    assert((rot + 360) % 360 == rot % 360);
    assert((p.angle + (rot + 360)) % 360 == (p.angle + rot) % 360);
}

} // verus!
