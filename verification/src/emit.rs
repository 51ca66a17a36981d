//! Schematic document writer: placed symbols, labels, wires and marks, and the document they make.
use crate::flex::cut_wide;
use crate::geom;
use crate::geom::{floor_mod, max_i, min_i, Pt};
use crate::number;
use crate::number::fmt_num;
use crate::order_map;
use crate::orient;
use crate::orient::cut_off;
use crate::text;
use crate::text::{same, Line};
use crate::tree;
use vstd::prelude::*;

verus! {

/// Length of the stub between a pin and its label or power symbol.
pub const STUB: i64 = 381_000;

// ---------------------------------------------------------------- points and directions
/// A coordinate on the nearest grid line, a tie away from zero.
pub open spec fn snapped(v: int) -> i64 {
    let c = orient::cut(v) as int;
    (if c < 0 {
        -((-c + 63_500) / 127_000 * 127_000)
    } else {
        (c + 63_500) / 127_000 * 127_000
    }) as i64
}

pub open spec fn snapped_pt(x: int, y: int) -> Pt {
    Pt { x: snapped(x), y: snapped(y) }
}

pub open spec fn snap_of(p: Pt) -> Pt {
    snapped_pt(p.x as int, p.y as int)
}

/// A point of the sheet as far out as points can be.
pub open spec fn placed_pt(p: Pt) -> bool {
    geom::in_range(p.x as int) && geom::in_range(p.y as int)
}

fn snap_coord(v: i128) -> (r: i64)
    ensures
        r == snapped(v as int),
        geom::in_range(r as int),
{
    let c = cut_wide(v);
    if c < 0 {
        -((-c + 63_500) / 127_000 * 127_000)
    } else {
        (c + 63_500) / 127_000 * 127_000
    }
}

/// The grid point nearest to a point.
pub fn snap_point(p: Pt) -> (r: Pt)
    ensures
        r == snap_of(p),
        placed_pt(r),
{
    Pt { x: snap_coord(p.x as i128), y: snap_coord(p.y as i128) }
}

pub(crate) fn snap_sum(x: i128, y: i128) -> (r: Pt)
    ensures
        r == snapped_pt(x as int, y as int),
        placed_pt(r),
{
    Pt { x: snap_coord(x), y: snap_coord(y) }
}

/// A pin's outward direction on the sheet.
#[derive(Clone, Copy, Debug, PartialEq, Eq, Structural)]
pub enum Dir {
    East,
    West,
    North,
    South,
}

impl Dir {
    pub open spec fn dx(self) -> int {
        match self {
            Dir::East => 1,
            Dir::West => -1,
            _ => 0,
        }
    }

    pub open spec fn dy(self) -> int {
        match self {
            Dir::North => -1,
            Dir::South => 1,
            _ => 0,
        }
    }

    /// The step of a unit along the direction; the sheet's y grows downward.
    pub fn vec(self) -> (r: (i64, i64))
        ensures
            r.0 == self.dx(),
            r.1 == self.dy(),
    {
        match self {
            Dir::East => (1, 0),
            Dir::West => (-1, 0),
            Dir::North => (0, -1),
            Dir::South => (0, 1),
        }
    }
}

/// The axis nearest to an angle in degrees, counter-clockwise from East.
pub open spec fn toward(angle: int) -> Dir {
    let a = angle % 360;
    if a <= 45 || a >= 315 {
        Dir::East
    } else if a < 135 {
        Dir::North
    } else if a <= 225 {
        Dir::West
    } else {
        Dir::South
    }
}

/// The outward direction of a pin whose line runs into the body at `angle`, on an instance that is
/// mirrored and turned.
pub open spec fn outward(angle: int, inst_angle: int, mirror: bool) -> Dir {
    let out = angle + 180;
    toward((if mirror {
        180 - out
    } else {
        out
    }) + inst_angle)
}

pub fn quantize_dir(angle: i32, inst_angle: i32, mirror: bool) -> (d: Dir)
    ensures
        d == outward(angle as int, inst_angle as int, mirror),
{
    let out: i64 = angle as i64 + 180;
    let m: i64 = if mirror { 180 - out } else { out };
    let a = floor_mod(m + inst_angle as i64, 360);
    if a <= 45 || a >= 315 {
        Dir::East
    } else if a < 135 {
        Dir::North
    } else if a <= 225 {
        Dir::West
    } else {
        Dir::South
    }
}

/// A pin of a symbol: its number, its name, where it connects and which way its line runs.
#[derive(Debug, Clone)]
pub struct PinGeom {
    pub number: String,
    pub name: String,
    pub at: Pt,
    pub angle: i32,
}

/// Where a pin of a placed instance connects: mirrored, turned by quarter turns, flipped to the
/// sheet and moved to the instance.
pub open spec fn endpoint(at: Pt, inst: Pt, angle: int, mirror: bool) -> Pt {
    let lx = if mirror {
        -at.x
    } else {
        at.x as int
    };
    let ly = at.y as int;
    let a = angle % 360;
    let (rx, ry) = if a == 90 {
        (-ly, lx)
    } else if a == 180 {
        (-lx, -ly)
    } else if a == 270 {
        (ly, -lx)
    } else {
        (lx, ly)
    };
    snapped_pt(inst.x + rx, inst.y - ry)
}

pub fn pin_endpoint(pin: &PinGeom, inst: Pt, angle: i32, mirror: bool) -> (r: Pt)
    ensures
        r == endpoint(pin.at, inst, angle as int, mirror),
        placed_pt(r),
{
    let lx: i128 = if mirror { -(pin.at.x as i128) } else { pin.at.x as i128 };
    let ly: i128 = pin.at.y as i128;
    let a = floor_mod(angle as i64, 360);
    let (rx, ry): (i128, i128) = if a == 90 {
        (-ly, lx)
    } else if a == 180 {
        (-lx, -ly)
    } else if a == 270 {
        (ly, -lx)
    } else {
        (lx, ly)
    };
    snap_sum(inst.x as i128 + rx, inst.y as i128 - ry)
}

pub open spec fn apart(a: i64, b: i64) -> int {
    orient::cut(a as int) - orient::cut(b as int)
}

/// Whether a point lies on a segment, ends included.
pub open spec fn on_line(p: Pt, a: Pt, b: Pt) -> bool {
    let in_x = geom::lo(a.x as int, b.x as int) <= p.x <= geom::hi(a.x as int, b.x as int);
    let in_y = geom::lo(a.y as int, b.y as int) <= p.y <= geom::hi(a.y as int, b.y as int);
    if a.x == b.x {
        p.x == a.x && in_y
    } else if a.y == b.y {
        p.y == a.y && in_x
    } else {
        apart(p.x, a.x) * apart(b.y, a.y) == apart(p.y, a.y) * apart(b.x, a.x) && in_x && in_y
    }
}

pub fn point_on_segment(p: Pt, a: Pt, b: Pt) -> (r: bool)
    ensures
        r == on_line(p, a, b),
{
    let in_x = min_i(a.x, b.x) <= p.x && p.x <= max_i(a.x, b.x);
    let in_y = min_i(a.y, b.y) <= p.y && p.y <= max_i(a.y, b.y);
    if a.x == b.x {
        p.x == a.x && in_y
    } else if a.y == b.y {
        p.y == a.y && in_x
    } else {
        let px: i128 = cut_off(p.x) as i128 - cut_off(a.x) as i128;
        let py: i128 = cut_off(p.y) as i128 - cut_off(a.y) as i128;
        let bx: i128 = cut_off(b.x) as i128 - cut_off(a.x) as i128;
        let by: i128 = cut_off(b.y) as i128 - cut_off(a.y) as i128;
        assert(-0x1_0000_0000_0000_0000_0000_0000 <= px * by
            <= 0x1_0000_0000_0000_0000_0000_0000) by (nonlinear_arith)
            requires
                -0x100_0000_0000 <= px <= 0x100_0000_0000,
                -0x100_0000_0000 <= by <= 0x100_0000_0000,
        ;
        assert(-0x1_0000_0000_0000_0000_0000_0000 <= py * bx
            <= 0x1_0000_0000_0000_0000_0000_0000) by (nonlinear_arith)
            requires
                -0x100_0000_0000 <= py <= 0x100_0000_0000,
                -0x100_0000_0000 <= bx <= 0x100_0000_0000,
        ;
        px * by == py * bx && in_x && in_y
    }
}

// ---------------------------------------------------------------- what a sheet holds
/// A symbol as a library draws it.
#[derive(Debug, Clone)]
pub struct SymbolGeometry {
    pub lib_id: String,
    /// The definition as it is embedded in a document.
    pub raw_definition: String,
    pub width: i64,
    pub height: i64,
    pub pins: Vec<PinGeom>,
}

/// The symbols that can be placed.
#[derive(Debug, Clone)]
pub struct Gallery {
    pub symbols: Vec<SymbolGeometry>,
}

/// The first symbol from `i` on with a library id, or the number of symbols.
pub open spec fn shelf(v: Seq<SymbolGeometry>, lib: Seq<char>, i: int) -> int
    decreases v.len() - i,
{
    if i < 0 || i >= v.len() || v[i].lib_id@ == lib {
        i
    } else {
        shelf(v, lib, i + 1)
    }
}

impl Gallery {
    pub open spec fn found(&self, lib: Seq<char>) -> Option<SymbolGeometry> {
        let i = shelf(self.symbols@, lib, 0);
        if i < self.symbols@.len() {
            Some(self.symbols@[i])
        } else {
            None
        }
    }

    pub fn get(&self, lib: &str) -> (r: Option<&SymbolGeometry>)
        ensures
            match r {
                Some(g) => self.found(lib@) == Some(*g),
                None => self.found(lib@) is None,
            },
    {
        let mut i: usize = 0;
        while i < self.symbols.len()
            invariant
                i <= self.symbols@.len(),
                shelf(self.symbols@, lib@, 0) == shelf(self.symbols@, lib@, i as int),
            decreases self.symbols@.len() - i,
        {
            if same(self.symbols[i].lib_id.as_str(), lib) {
                return Some(&self.symbols[i]);
            }
            i += 1;
        }
        None
    }
}

/// Why something could not be put on the sheet.
#[derive(Debug, Clone)]
pub enum EmitError {
    /// No symbol with this library id.
    NoSymbol(String),
    /// Nothing is placed under this reference.
    NoInstance(String),
    /// No pin of this number or name on that symbol.
    NoPin(String, String),
}

pub enum EmitErrorV {
    NoSymbol(Seq<char>),
    NoInstance(Seq<char>),
    NoPin(Seq<char>, Seq<char>),
}

impl EmitError {
    pub open spec fn view(&self) -> EmitErrorV {
        match *self {
            EmitError::NoSymbol(l) => EmitErrorV::NoSymbol(l@),
            EmitError::NoInstance(r) => EmitErrorV::NoInstance(r@),
            EmitError::NoPin(p, l) => EmitErrorV::NoPin(p@, l@),
        }
    }
}

/// A placed symbol.
#[derive(Debug)]
pub struct Instance {
    pub lib_id: String,
    pub refdes: String,
    pub value: String,
    pub at: Pt,
    pub angle: i32,
    pub mirror: bool,
    /// Hidden properties, as they are written.
    pub extra: Vec<(String, String)>,
    /// The identifier to keep, if any.
    pub uuid: Option<String>,
    pub half_w: i64,
    pub half_h: i64,
}

#[verifier::ext_equal]
pub struct InstanceV {
    pub lib_id: Seq<char>,
    pub refdes: Seq<char>,
    pub value: Seq<char>,
    pub at: Pt,
    pub angle: i32,
    pub mirror: bool,
    pub extra: Seq<(Seq<char>, Seq<char>)>,
    pub uuid: Option<Seq<char>>,
    pub half_w: i64,
    pub half_h: i64,
}

pub open spec fn pairs_v(v: Seq<(String, String)>) -> Seq<(Seq<char>, Seq<char>)> {
    Seq::new(v.len(), |i: int| (v[i].0@, v[i].1@))
}

impl Instance {
    pub open spec fn view(&self) -> InstanceV {
        InstanceV {
            lib_id: self.lib_id@,
            refdes: self.refdes@,
            value: self.value@,
            at: self.at,
            angle: self.angle,
            mirror: self.mirror,
            extra: pairs_v(self.extra@),
            uuid: tree::text_v(self.uuid),
            half_w: self.half_w,
            half_h: self.half_h,
        }
    }
}

/// A net label.
#[derive(Debug)]
pub struct PinLabel {
    pub net: String,
    pub at: Pt,
    pub key: String,
    pub dir: Dir,
    /// The pin end that the stub of the label starts at, if it has one.
    pub stub: Option<Pt>,
}

#[verifier::ext_equal]
pub struct PinLabelV {
    pub net: Seq<char>,
    pub at: Pt,
    pub key: Seq<char>,
    pub dir: Dir,
    pub stub: Option<Pt>,
}

impl PinLabel {
    pub open spec fn view(&self) -> PinLabelV {
        PinLabelV { net: self.net@, at: self.at, key: self.key@, dir: self.dir, stub: self.stub }
    }
}

/// A wire, with its net where that is known.
#[derive(Debug)]
pub struct Wire {
    pub a: Pt,
    pub b: Pt,
    pub key: String,
    pub net: Option<String>,
}

#[verifier::ext_equal]
pub struct WireV {
    pub a: Pt,
    pub b: Pt,
    pub key: Seq<char>,
    pub net: Option<Seq<char>>,
}

impl Wire {
    pub open spec fn view(&self) -> WireV {
        WireV { a: self.a, b: self.b, key: self.key@, net: tree::text_v(self.net) }
    }
}

/// A junction or a no-connect mark.
#[derive(Debug)]
pub struct Mark {
    pub at: Pt,
    pub key: String,
}

#[verifier::ext_equal]
pub struct MarkV {
    pub at: Pt,
    pub key: Seq<char>,
}

impl Mark {
    pub open spec fn view(&self) -> MarkV {
        MarkV { at: self.at, key: self.key@ }
    }
}

#[derive(Debug)]
pub struct SheetText {
    pub text: String,
    pub at: Pt,
    pub size: i64,
    pub bold: bool,
    pub key: String,
}

#[verifier::ext_equal]
pub struct SheetTextV {
    pub text: Seq<char>,
    pub at: Pt,
    pub size: i64,
    pub bold: bool,
    pub key: Seq<char>,
}

impl SheetText {
    pub open spec fn view(&self) -> SheetTextV {
        SheetTextV {
            text: self.text@,
            at: self.at,
            size: self.size,
            bold: self.bold,
            key: self.key@,
        }
    }
}

#[derive(Debug)]
pub struct SheetRect {
    pub start: Pt,
    pub end: Pt,
    pub key: String,
}

#[verifier::ext_equal]
pub struct SheetRectV {
    pub start: Pt,
    pub end: Pt,
    pub key: Seq<char>,
}

impl SheetRect {
    pub open spec fn view(&self) -> SheetRectV {
        SheetRectV { start: self.start, end: self.end, key: self.key@ }
    }
}

pub open spec fn instances_v(v: Seq<Instance>) -> Seq<InstanceV> {
    Seq::new(v.len(), |i: int| v[i]@)
}

pub open spec fn labels_v(v: Seq<PinLabel>) -> Seq<PinLabelV> {
    Seq::new(v.len(), |i: int| v[i]@)
}

pub open spec fn wires_v(v: Seq<Wire>) -> Seq<WireV> {
    Seq::new(v.len(), |i: int| v[i]@)
}

pub open spec fn marks_v(v: Seq<Mark>) -> Seq<MarkV> {
    Seq::new(v.len(), |i: int| v[i]@)
}

pub open spec fn texts_v(v: Seq<SheetText>) -> Seq<SheetTextV> {
    Seq::new(v.len(), |i: int| v[i]@)
}

pub open spec fn rects_v(v: Seq<SheetRect>) -> Seq<SheetRectV> {
    Seq::new(v.len(), |i: int| v[i]@)
}

/// A sheet being written. Nothing is rendered before [`SchematicWriter::finish`].
#[derive(Debug)]
pub struct SchematicWriter {
    /// Library id and definition of each symbol in use, in ascending order.
    pub lib_symbols: Vec<(String, String)>,
    pub instances: Vec<Instance>,
    pub labels: Vec<PinLabel>,
    pub no_connects: Vec<Mark>,
    pub wires: Vec<Wire>,
    pub junctions: Vec<Mark>,
    pub texts: Vec<SheetText>,
    pub rects: Vec<SheetRect>,
}

#[verifier::ext_equal]
pub struct WriterV {
    pub lib_symbols: Seq<(Seq<char>, Seq<char>)>,
    pub instances: Seq<InstanceV>,
    pub labels: Seq<PinLabelV>,
    pub no_connects: Seq<MarkV>,
    pub wires: Seq<WireV>,
    pub junctions: Seq<MarkV>,
    pub texts: Seq<SheetTextV>,
    pub rects: Seq<SheetRectV>,
}

impl View for SchematicWriter {
    type V = WriterV;

    open spec fn view(&self) -> WriterV {
        WriterV {
            lib_symbols: pairs_v(self.lib_symbols@),
            instances: instances_v(self.instances@),
            labels: labels_v(self.labels@),
            no_connects: marks_v(self.no_connects@),
            wires: wires_v(self.wires@),
            junctions: marks_v(self.junctions@),
            texts: texts_v(self.texts@),
            rects: rects_v(self.rects@),
        }
    }
}

// ---------------------------------------------------------------- adding to a sheet
/// A coordinate as it is written.
pub open spec fn coord(v: i64) -> Seq<char> {
    number::shown(10 * orient::cut(v as int))
}

pub(crate) fn fmt_coord(v: i64) -> (r: String)
    ensures
        r@ == coord(v),
{
    fmt_num(10 * cut_off(v))
}

/// The first place whose library id does not come before `lib`.
pub open spec fn lib_place(v: Seq<(Seq<char>, Seq<char>)>, lib: Seq<char>, i: int) -> int
    decreases v.len() - i,
{
    if i < 0 || i >= v.len() || !text::before(v[i].0, lib) {
        i
    } else {
        lib_place(v, lib, i + 1)
    }
}

/// The definitions with one more, each library id once.
pub open spec fn with_definition(
    v: Seq<(Seq<char>, Seq<char>)>,
    lib: Seq<char>,
    body: Seq<char>,
) -> Seq<(Seq<char>, Seq<char>)> {
    if order_map::look(v, lib) is Some {
        v
    } else {
        v.insert(lib_place(v, lib, 0), (lib, body))
    }
}

impl WriterV {
    pub open spec fn empty() -> WriterV {
        WriterV {
            lib_symbols: Seq::empty(),
            instances: Seq::empty(),
            labels: Seq::empty(),
            no_connects: Seq::empty(),
            wires: Seq::empty(),
            junctions: Seq::empty(),
            texts: Seq::empty(),
            rects: Seq::empty(),
        }
    }

    /// The sheet with a placed symbol more.
    pub open spec fn with_symbol(
        self,
        g: SymbolGeometry,
        refdes: Seq<char>,
        value: Seq<char>,
        at: Pt,
        angle: i32,
        extra: Seq<(Seq<char>, Seq<char>)>,
        uuid: Option<Seq<char>>,
    ) -> WriterV {
        WriterV {
            lib_symbols: with_definition(self.lib_symbols, g.lib_id@, g.raw_definition@),
            instances: self.instances.push(
                InstanceV {
                    lib_id: g.lib_id@,
                    refdes,
                    value,
                    at: snap_of(at),
                    angle,
                    mirror: false,
                    extra,
                    uuid,
                    half_w: (g.width as int / 2) as i64,
                    half_h: (g.height as int / 2) as i64,
                },
            ),
            ..self
        }
    }

    /// The sheet with a wire more, unless it has no length or is there already.
    pub open spec fn with_wire(self, a: Pt, b: Pt, net: Option<Seq<char>>) -> WriterV {
        let (p, q) = (snap_of(a), snap_of(b));
        let key = wire_key(p, q);
        if p == q || has_wire(self.wires, key) {
            self
        } else {
            WriterV { wires: self.wires.push(WireV { a: p, b: q, key, net }), ..self }
        }
    }

    pub open spec fn with_junction(self, at: Pt) -> WriterV {
        let p = snap_of(at);
        let key = point_key(p);
        if has_mark(self.junctions, key) {
            self
        } else {
            WriterV { junctions: self.junctions.push(MarkV { at: p, key }), ..self }
        }
    }

    pub open spec fn with_text(
        self,
        t: Seq<char>,
        at: Pt,
        size: i64,
        bold: bool,
        key: Seq<char>,
    ) -> WriterV {
        WriterV {
            texts: self.texts.push(SheetTextV { text: t, at: snap_of(at), size, bold, key }),
            ..self
        }
    }

    pub open spec fn with_rect(self, start: Pt, end: Pt, key: Seq<char>) -> WriterV {
        WriterV {
            rects: self.rects.push(SheetRectV { start: snap_of(start), end: snap_of(end), key }),
            ..self
        }
    }
}

pub open spec fn point_key(p: Pt) -> Seq<char> {
    coord(p.x) + ":"@ + coord(p.y)
}

pub open spec fn wire_key(a: Pt, b: Pt) -> Seq<char> {
    coord(a.x) + ":"@ + coord(a.y) + ":"@ + coord(b.x) + ":"@ + coord(b.y)
}

pub open spec fn has_wire(v: Seq<WireV>, key: Seq<char>) -> bool {
    exists|i: int| 0 <= i < v.len() && (#[trigger] v[i]).key == key
}

pub open spec fn has_mark(v: Seq<MarkV>, key: Seq<char>) -> bool {
    exists|i: int| 0 <= i < v.len() && (#[trigger] v[i]).key == key
}

/// The first instance from `i` on with a reference, or the number of instances.
pub open spec fn find_ref(v: Seq<InstanceV>, refdes: Seq<char>, i: int) -> int
    decreases v.len() - i,
{
    if i < 0 || i >= v.len() || v[i].refdes == refdes {
        i
    } else {
        find_ref(v, refdes, i + 1)
    }
}

/// The pins from the first `n` with a number, or with a name.
pub open spec fn pins_like(v: Seq<PinGeom>, pin: Seq<char>, by_name: bool, n: int) -> Seq<PinGeom>
    decreases n,
{
    if n <= 0 {
        Seq::empty()
    } else {
        let rest = pins_like(v, pin, by_name, n - 1);
        if (if by_name {
            v[n - 1].name@
        } else {
            v[n - 1].number@
        }) == pin {
            rest.push(v[n - 1])
        } else {
            rest
        }
    }
}

/// The pins a reference means: those of that number, else those of that name.
pub open spec fn pins_meant(v: Seq<PinGeom>, pin: Seq<char>) -> Seq<PinGeom> {
    let by_number = pins_like(v, pin, false, v.len() as int);
    if by_number.len() > 0 {
        by_number
    } else {
        pins_like(v, pin, true, v.len() as int)
    }
}

/// An end of a pin with its outward direction.
pub struct PinEnd {
    pub at: Pt,
    pub dir: Dir,
}

/// The ends of a pin of a placed symbol, or why there are none.
pub open spec fn pin_ends(w: WriterV, g: Gallery, refdes: Seq<char>, pin: Seq<char>) -> Result<
    Seq<PinEnd>,
    EmitErrorV,
> {
    let i = find_ref(w.instances, refdes, 0);
    if i >= w.instances.len() {
        Err(EmitErrorV::NoInstance(refdes))
    } else {
        let inst = w.instances[i];
        match g.found(inst.lib_id) {
            None => Err(EmitErrorV::NoSymbol(inst.lib_id)),
            Some(s) => {
                let m = pins_meant(s.pins@, pin);
                if m.len() == 0 {
                    Err(EmitErrorV::NoPin(pin, inst.lib_id))
                } else {
                    Ok(
                        Seq::new(
                            m.len(),
                            |k: int|
                                PinEnd {
                                    at: endpoint(m[k].at, inst.at, inst.angle as int, inst.mirror),
                                    dir: outward(
                                        m[k].angle as int,
                                        inst.angle as int,
                                        inst.mirror,
                                    ),
                                },
                        ),
                    )
                }
            },
        }
    }
}

/// The key of a label or mark at the end of a pin.
pub open spec fn pin_key(refdes: Seq<char>, pin: Seq<char>, rest: Seq<char>, i: int) -> Seq<char> {
    refdes + ":"@ + pin + ":"@ + rest + text::digits(i as nat)
}

/// Labels at the first `n` ends of a pin.
pub open spec fn end_labels(
    ends: Seq<PinEnd>,
    refdes: Seq<char>,
    pin: Seq<char>,
    net: Seq<char>,
    n: int,
) -> Seq<PinLabelV>
    decreases n,
{
    if n <= 0 {
        Seq::empty()
    } else {
        end_labels(ends, refdes, pin, net, n - 1).push(
            PinLabelV {
                net,
                at: ends[n - 1].at,
                key: pin_key(refdes, pin, net + ":"@, n - 1),
                dir: Dir::East,
                stub: None,
            },
        )
    }
}

/// Labels on stubs at the first `n` ends of a pin.
pub open spec fn stub_labels(
    ends: Seq<PinEnd>,
    refdes: Seq<char>,
    pin: Seq<char>,
    net: Seq<char>,
    n: int,
) -> Seq<PinLabelV>
    decreases n,
{
    if n <= 0 {
        Seq::empty()
    } else {
        let e = ends[n - 1];
        let p = snap_of(e.at);
        stub_labels(ends, refdes, pin, net, n - 1).push(
            PinLabelV {
                net,
                at: snapped_pt(p.x + e.dir.dx() * STUB, p.y + e.dir.dy() * STUB),
                key: pin_key(refdes, pin, net + ":"@, n - 1),
                dir: e.dir,
                stub: Some(p),
            },
        )
    }
}

/// Whether the stubs of labels start and end on the grid.
pub open spec fn stubs_on_grid(v: Seq<PinLabelV>) -> bool {
    forall|i: int|
        0 <= i < v.len() ==> match (#[trigger] v[i]).stub {
            Some(p) => snap_of(p) == p && snap_of(v[i].at) == v[i].at,
            None => true,
        }
}

/// A coordinate on the grid is its own nearest grid line.
pub proof fn snapping_twice_is_snapping_once(v: int)
    ensures
        snapped(snapped(v) as int) == snapped(v),
{
    let c = orient::cut(v) as int;
    let m = if c < 0 {
        -c
    } else {
        c
    };
    let k = (m + 63_500) / 127_000;
    assert(0 <= k <= 4_328_786);
    assert((127_000 * k + 63_500) / 127_000 == k);
    assert((orient::LIMIT + 63_500) / 127_000 == 4_328_786);
}

/// Labels on stubs have their stubs on the grid.
pub proof fn stub_labels_are_on_grid(
    ends: Seq<PinEnd>,
    refdes: Seq<char>,
    pin: Seq<char>,
    net: Seq<char>,
    n: int,
)
    ensures
        stubs_on_grid(stub_labels(ends, refdes, pin, net, n)),
    decreases n,
{
    if n > 0 {
        stub_labels_are_on_grid(ends, refdes, pin, net, n - 1);
        let e = ends[n - 1];
        let p = snap_of(e.at);
        snapping_twice_is_snapping_once(e.at.x as int);
        snapping_twice_is_snapping_once(e.at.y as int);
        snapping_twice_is_snapping_once(p.x + e.dir.dx() * STUB);
        snapping_twice_is_snapping_once(p.y + e.dir.dy() * STUB);
    }
}

/// Labels at the ends of pins have no stubs.
pub proof fn end_labels_have_no_stubs(
    ends: Seq<PinEnd>,
    refdes: Seq<char>,
    pin: Seq<char>,
    net: Seq<char>,
    n: int,
)
    ensures
        stubs_on_grid(end_labels(ends, refdes, pin, net, n)),
    decreases n,
{
    if n > 0 {
        end_labels_have_no_stubs(ends, refdes, pin, net, n - 1);
    }
}

pub open spec fn end_marks(ends: Seq<PinEnd>, refdes: Seq<char>, pin: Seq<char>, n: int) -> Seq<MarkV>
    decreases n,
{
    if n <= 0 {
        Seq::empty()
    } else {
        end_marks(ends, refdes, pin, n - 1).push(
            MarkV { at: ends[n - 1].at, key: pin_key(refdes, pin, ""@, n - 1) },
        )
    }
}

fn dup_pairs(v: &Vec<(String, String)>) -> (r: Vec<(String, String)>)
    ensures
        pairs_v(r@) == pairs_v(v@),
{
    let mut r: Vec<(String, String)> = Vec::new();
    let mut i: usize = 0;
    while i < v.len()
        invariant
            i <= v@.len(),
            r@.len() == i,
            forall|k: int|
                0 <= k < i ==> (#[trigger] r@[k]).0@ == v@[k].0@ && r@[k].1@ == v@[k].1@,
        decreases v@.len() - i,
    {
        r.push((v[i].0.clone(), v[i].1.clone()));
        i += 1;
    }
    assert(pairs_v(r@) =~= pairs_v(v@));
    r
}

pub(crate) fn half(v: i64) -> (r: i64)
    ensures
        r == v as int / 2,
{
    if v >= 0 {
        v / 2
    } else if v == i64::MIN {
        -0x4000_0000_0000_0000
    } else {
        let m: i64 = -v;
        if m % 2 == 0 { -(m / 2) } else { -(m / 2) - 1 }
    }
}

fn key_of_end(refdes: &str, pin: &str, net: Option<&str>, i: usize) -> (r: String)
    ensures
        r@ == pin_key(
            refdes@,
            pin@,
            match net {
                Some(n) => n@ + ":"@,
                None => ""@,
            },
            i as int,
        ),
{
    match net {
        Some(n) => {
            let r = Line::of(refdes).add(":").add(pin).add(":").add(n).add(":").count(
                i as u128,
            ).done();
            assert(r@ =~= pin_key(refdes@, pin@, n@ + ":"@, i as int));
            r
        },
        None => {
            let r = Line::of(refdes).add(":").add(pin).add(":").count(i as u128).done();
            proof {
                reveal_strlit("");
            }
            assert(r@ =~= pin_key(refdes@, pin@, ""@, i as int));
            r
        },
    }
}

impl SchematicWriter {
    /// A new, empty sheet.
    pub fn new() -> (r: SchematicWriter)
        ensures
            r@ == WriterV::empty(),
            stubs_on_grid(r@.labels),
    {
        let r = SchematicWriter {
            lib_symbols: Vec::new(),
            instances: Vec::new(),
            labels: Vec::new(),
            no_connects: Vec::new(),
            wires: Vec::new(),
            junctions: Vec::new(),
            texts: Vec::new(),
            rects: Vec::new(),
        };
        assert(r@ =~= WriterV::empty());
        r
    }

    fn add_definition(&mut self, lib: &str, body: &str)
        ensures
            final(self)@ == (WriterV {
                lib_symbols: with_definition(old(self)@.lib_symbols, lib@, body@),
                ..old(self)@
            }),
    {
        let ghost w0 = self@;
        let ghost v = self@.lib_symbols;
        let mut i: usize = 0;
        while i < self.lib_symbols.len()
            invariant
                i <= self.lib_symbols@.len(),
                self@ == w0,
                v == pairs_v(self.lib_symbols@),
                v == w0.lib_symbols,
                order_map::seek(v, lib@, 0) == order_map::seek(v, lib@, i as int),
            decreases self.lib_symbols@.len() - i,
        {
            assert(v[i as int].0 == self.lib_symbols@[i as int].0@);
            if same(self.lib_symbols[i].0.as_str(), lib) {
                assert(self@ =~= WriterV {
                    lib_symbols: with_definition(v, lib@, body@),
                    ..w0
                });
                return;
            }
            i += 1;
        }
        i = 0;
        while i < self.lib_symbols.len() && text::is_before(self.lib_symbols[i].0.as_str(), lib)
            invariant
                i <= self.lib_symbols@.len(),
                self@ == w0,
                v == pairs_v(self.lib_symbols@),
                lib_place(v, lib@, 0) == lib_place(v, lib@, i as int),
            decreases self.lib_symbols@.len() - i,
        {
            assert(v[i as int].0 == self.lib_symbols@[i as int].0@);
            i += 1;
        }
        if i < self.lib_symbols.len() {
            assert(v[i as int].0 == self.lib_symbols@[i as int].0@);
        }
        self.lib_symbols.insert(i, (lib.to_owned(), body.to_owned()));
        assert(pairs_v(self.lib_symbols@) =~= v.insert(i as int, (lib@, body@)));
        assert(self@ =~= WriterV { lib_symbols: with_definition(v, lib@, body@), ..w0 });
    }

    /// Places a symbol with hidden properties and, where one is to be kept, its identifier.
    pub fn add_symbol_full(
        &mut self,
        gallery: &Gallery,
        lib_id: &str,
        refdes: &str,
        value: &str,
        at: Pt,
        angle: i32,
        extra: &Vec<(String, String)>,
        uuid: Option<String>,
    ) -> (r: Result<(), EmitError>)
        ensures
            match gallery.found(lib_id@) {
                Some(g) => r is Ok && final(self)@ == old(self)@.with_symbol(
                    g,
                    refdes@,
                    value@,
                    at,
                    angle,
                    pairs_v(extra@),
                    tree::text_v(uuid),
                ),
                None => r is Err && r->Err_0@ == EmitErrorV::NoSymbol(lib_id@) && final(self)@
                    == old(self)@,
            },
    {
        let ghost w0 = self@;
        let ghost uv = tree::text_v(uuid);
        let g = match gallery.get(lib_id) {
            Some(g) => g,
            None => return Err(EmitError::NoSymbol(lib_id.to_owned())),
        };
        self.add_definition(g.lib_id.as_str(), g.raw_definition.as_str());
        let inst = Instance {
            lib_id: g.lib_id.clone(),
            refdes: refdes.to_owned(),
            value: value.to_owned(),
            at: snap_point(at),
            angle,
            mirror: false,
            extra: dup_pairs(extra),
            uuid,
            half_w: half(g.width),
            half_h: half(g.height),
        };
        let ghost iv = inst@;
        self.instances.push(inst);
        assert(instances_v(self.instances@) =~= w0.instances.push(iv));
        assert(self@ =~= w0.with_symbol(*g, refdes@, value@, at, angle, pairs_v(extra@), uv));
        Ok(())
    }

    /// Places a symbol.
    pub fn add_symbol(
        &mut self,
        gallery: &Gallery,
        lib_id: &str,
        refdes: &str,
        value: &str,
        at: Pt,
        angle: i32,
    ) -> (r: Result<(), EmitError>)
        ensures
            match gallery.found(lib_id@) {
                Some(g) => r is Ok && final(self)@ == old(self)@.with_symbol(
                    g,
                    refdes@,
                    value@,
                    at,
                    angle,
                    Seq::empty(),
                    None,
                ),
                None => r is Err && r->Err_0@ == EmitErrorV::NoSymbol(lib_id@) && final(self)@
                    == old(self)@,
            },
    {
        let none: Vec<(String, String)> = Vec::new();
        assert(pairs_v(none@) =~= Seq::empty());
        self.add_symbol_full(gallery, lib_id, refdes, value, at, angle, &none, None)
    }

    /// Places a power symbol; its value names the net and its pin is at its origin.
    pub fn add_power_symbol(
        &mut self,
        gallery: &Gallery,
        lib_id: &str,
        refdes: &str,
        net: &str,
        at: Pt,
        angle: i32,
    ) -> (r: Result<(), EmitError>)
        ensures
            match gallery.found(lib_id@) {
                Some(g) => r is Ok && final(self)@ == old(self)@.with_symbol(
                    g,
                    refdes@,
                    net@,
                    at,
                    angle,
                    Seq::empty(),
                    None,
                ),
                None => r is Err && r->Err_0@ == EmitErrorV::NoSymbol(lib_id@) && final(self)@
                    == old(self)@,
            },
    {
        self.add_symbol(gallery, lib_id, refdes, net, at, angle)
    }

    /// Places a PWR_FLAG whose pin is at a point.
    pub fn add_power_flag_at(&mut self, gallery: &Gallery, refdes: &str, at: Pt) -> (r: Result<
        (),
        EmitError,
    >)
        ensures
            match gallery.found("power:PWR_FLAG"@) {
                Some(g) => r is Ok && final(self)@ == old(self)@.with_symbol(
                    g,
                    refdes@,
                    "PWR_FLAG"@,
                    at,
                    0,
                    Seq::empty(),
                    None,
                ),
                None => r is Err && r->Err_0@ == EmitErrorV::NoSymbol("power:PWR_FLAG"@)
                    && final(self)@ == old(self)@,
            },
    {
        self.add_symbol(gallery, "power:PWR_FLAG", refdes, "PWR_FLAG", at, 0)
    }

    fn push_wire(&mut self, a: Pt, b: Pt, net: Option<String>)
        ensures
            final(self)@ == old(self)@.with_wire(a, b, tree::text_v(net)),
    {
        let ghost w0 = self@;
        let ghost nv = tree::text_v(net);
        let p = snap_point(a);
        let q = snap_point(b);
        if p.x == q.x && p.y == q.y {
            return;
        }
        let key = Line::of(fmt_coord(p.x).as_str()).add(":").add(fmt_coord(p.y).as_str()).add(
            ":",
        ).add(fmt_coord(q.x).as_str()).add(":").add(fmt_coord(q.y).as_str()).done();
        let mut i: usize = 0;
        while i < self.wires.len()
            invariant
                i <= self.wires@.len(),
                self@ == w0,
                w0.wires == wires_v(self.wires@),
                p == snap_of(a),
                q == snap_of(b),
                p != q,
                key@ == wire_key(p, q),
                forall|k: int| 0 <= k < i ==> (#[trigger] w0.wires[k]).key != key@,
            decreases self.wires@.len() - i,
        {
            assert(w0.wires[i as int] == self.wires@[i as int]@);
            if same(self.wires[i].key.as_str(), key.as_str()) {
                return;
            }
            i += 1;
        }
        assert(!has_wire(w0.wires, key@));
        let w = Wire { a: p, b: q, key, net };
        let ghost wv = w@;
        self.wires.push(w);
        assert(wires_v(self.wires@) =~= w0.wires.push(wv));
        assert(self@ =~= w0.with_wire(a, b, nv));
    }

    /// Adds a wire between two points.
    pub fn add_wire(&mut self, a: Pt, b: Pt)
        ensures
            final(self)@ == old(self)@.with_wire(a, b, None),
    {
        self.push_wire(a, b, None);
    }

    /// Adds a wire that belongs to a net.
    pub fn add_wire_on_net(&mut self, a: Pt, b: Pt, net: &str)
        ensures
            final(self)@ == old(self)@.with_wire(a, b, Some(net@)),
    {
        self.push_wire(a, b, Some(net.to_owned()));
    }

    /// Adds a junction, one at each point.
    pub fn add_junction(&mut self, at: Pt)
        ensures
            final(self)@ == old(self)@.with_junction(at),
    {
        let ghost w0 = self@;
        let p = snap_point(at);
        let key = Line::of(fmt_coord(p.x).as_str()).add(":").add(fmt_coord(p.y).as_str()).done();
        let mut i: usize = 0;
        while i < self.junctions.len()
            invariant
                i <= self.junctions@.len(),
                self@ == w0,
                w0.junctions == marks_v(self.junctions@),
                p == snap_of(at),
                key@ == point_key(p),
                forall|k: int| 0 <= k < i ==> (#[trigger] w0.junctions[k]).key != key@,
            decreases self.junctions@.len() - i,
        {
            assert(w0.junctions[i as int] == self.junctions@[i as int]@);
            if same(self.junctions[i].key.as_str(), key.as_str()) {
                return;
            }
            i += 1;
        }
        assert(!has_mark(w0.junctions, key@));
        let m = Mark { at: p, key };
        let ghost mv = m@;
        self.junctions.push(m);
        assert(marks_v(self.junctions@) =~= w0.junctions.push(mv));
        assert(self@ =~= w0.with_junction(at));
    }

    /// Adds a text.
    pub fn add_text(&mut self, t: &str, at: Pt, size: i64, bold: bool, key: &str)
        ensures
            final(self)@ == old(self)@.with_text(t@, at, size, bold, key@),
    {
        let ghost w0 = self@;
        let s = SheetText {
            text: t.to_owned(),
            at: snap_point(at),
            size,
            bold,
            key: key.to_owned(),
        };
        let ghost sv = s@;
        self.texts.push(s);
        assert(texts_v(self.texts@) =~= w0.texts.push(sv));
        assert(self@ =~= w0.with_text(t@, at, size, bold, key@));
    }

    /// Adds a dashed rectangle.
    pub fn add_rect(&mut self, start: Pt, end: Pt, key: &str)
        ensures
            final(self)@ == old(self)@.with_rect(start, end, key@),
    {
        let ghost w0 = self@;
        let r = SheetRect { start: snap_point(start), end: snap_point(end), key: key.to_owned() };
        let ghost rv = r@;
        self.rects.push(r);
        assert(rects_v(self.rects@) =~= w0.rects.push(rv));
        assert(self@ =~= w0.with_rect(start, end, key@));
    }

    fn find_instance(&self, refdes: &str) -> (r: usize)
        ensures
            r <= self.instances@.len(),
            r == find_ref(self@.instances, refdes@, 0),
    {
        let ghost v = self@.instances;
        let mut i: usize = 0;
        while i < self.instances.len()
            invariant
                i <= self.instances@.len(),
                v == instances_v(self.instances@),
                find_ref(v, refdes@, 0) == find_ref(v, refdes@, i as int),
            decreases self.instances@.len() - i,
        {
            assert(v[i as int] == self.instances@[i as int]@);
            if same(self.instances[i].refdes.as_str(), refdes) {
                return i;
            }
            i += 1;
        }
        i
    }

    /// The ends of a pin with their outward directions; the pin is meant by its number, else by its
    /// name.
    pub fn pin_dirs(&self, gallery: &Gallery, refdes: &str, pin: &str) -> (r: Result<
        Vec<PinEnd>,
        EmitError,
    >)
        ensures
            match r {
                Ok(v) => pin_ends(self@, *gallery, refdes@, pin@) == Ok::<Seq<PinEnd>, EmitErrorV>(
                    v@,
                ),
                Err(e) => pin_ends(self@, *gallery, refdes@, pin@) == Err::<
                    Seq<PinEnd>,
                    EmitErrorV,
                >(e@),
            },
    {
        let i = self.find_instance(refdes);
        if i >= self.instances.len() {
            return Err(EmitError::NoInstance(refdes.to_owned()));
        }
        let inst = &self.instances[i];
        assert(self@.instances[i as int] == inst@);
        let g = match gallery.get(inst.lib_id.as_str()) {
            Some(g) => g,
            None => return Err(EmitError::NoSymbol(inst.lib_id.clone())),
        };
        let mut v = ends_like(g, pin, false, inst);
        if v.len() == 0 {
            v = ends_like(g, pin, true, inst);
        }
        if v.len() == 0 {
            return Err(EmitError::NoPin(pin.to_owned(), inst.lib_id.clone()));
        }
        assert(v@ =~= pin_ends(self@, *gallery, refdes@, pin@)->Ok_0);
        Ok(v)
    }

    /// Puts a label on each end of a pin.
    pub fn add_pin_label(&mut self, gallery: &Gallery, refdes: &str, pin: &str, net: &str) -> (r:
        Result<(), EmitError>)
        ensures
            match pin_ends(old(self)@, *gallery, refdes@, pin@) {
                Ok(v) => r is Ok && final(self)@ == (WriterV {
                    labels: old(self)@.labels + end_labels(v, refdes@, pin@, net@, v.len() as int),
                    ..old(self)@
                }),
                Err(e) => r is Err && r->Err_0@ == e && final(self)@ == old(self)@,
            },
            stubs_on_grid(old(self)@.labels) ==> stubs_on_grid(final(self)@.labels),
    {
        let ghost w0 = self@;
        proof {
            if let Ok(v) = pin_ends(w0, *gallery, refdes@, pin@) {
                end_labels_have_no_stubs(v, refdes@, pin@, net@, v.len() as int);
            }
        }
        let ends = match self.pin_dirs(gallery, refdes, pin) {
            Ok(v) => v,
            Err(e) => return Err(e),
        };
        let mut i: usize = 0;
        assert(self@ =~= WriterV {
            labels: w0.labels + end_labels(ends@, refdes@, pin@, net@, 0),
            ..w0
        });
        while i < ends.len()
            invariant
                i <= ends@.len(),
                self@ == (WriterV {
                    labels: w0.labels + end_labels(ends@, refdes@, pin@, net@, i as int),
                    ..w0
                }),
            decreases ends@.len() - i,
        {
            let ghost b = self@;
            let l = PinLabel {
                net: net.to_owned(),
                at: ends[i].at,
                key: key_of_end(refdes, pin, Some(net), i),
                dir: Dir::East,
                stub: None,
            };
            let ghost lv = l@;
            self.labels.push(l);
            assert(labels_v(self.labels@) =~= b.labels.push(lv));
            assert(self@.labels =~= w0.labels + end_labels(
                ends@,
                refdes@,
                pin@,
                net@,
                i + 1,
            ));
            assert(self@ =~= WriterV {
                labels: w0.labels + end_labels(ends@, refdes@, pin@, net@, i + 1),
                ..w0
            });
            i += 1;
        }
        Ok(())
    }

    /// Puts a stub with a label at its far end on each end of a pin.
    pub fn add_signal_label(&mut self, gallery: &Gallery, refdes: &str, pin: &str, net: &str) -> (r:
        Result<(), EmitError>)
        ensures
            match pin_ends(old(self)@, *gallery, refdes@, pin@) {
                Ok(v) => r is Ok && final(self)@ == (WriterV {
                    labels: old(self)@.labels + stub_labels(v, refdes@, pin@, net@, v.len() as int),
                    ..old(self)@
                }),
                Err(e) => r is Err && r->Err_0@ == e && final(self)@ == old(self)@,
            },
            stubs_on_grid(old(self)@.labels) ==> stubs_on_grid(final(self)@.labels),
    {
        let ghost w0 = self@;
        proof {
            if let Ok(v) = pin_ends(w0, *gallery, refdes@, pin@) {
                stub_labels_are_on_grid(v, refdes@, pin@, net@, v.len() as int);
            }
        }
        let ends = match self.pin_dirs(gallery, refdes, pin) {
            Ok(v) => v,
            Err(e) => return Err(e),
        };
        let mut i: usize = 0;
        assert(self@ =~= WriterV {
            labels: w0.labels + stub_labels(ends@, refdes@, pin@, net@, 0),
            ..w0
        });
        while i < ends.len()
            invariant
                i <= ends@.len(),
                self@ == (WriterV {
                    labels: w0.labels + stub_labels(ends@, refdes@, pin@, net@, i as int),
                    ..w0
                }),
            decreases ends@.len() - i,
        {
            let ghost b = self@;
            let p = snap_point(ends[i].at);
            let d = ends[i].dir;
            let v = d.vec();
            let end = snap_sum(
                p.x as i128 + (v.0 * STUB) as i128,
                p.y as i128 + (v.1 * STUB) as i128,
            );
            let l = PinLabel {
                net: net.to_owned(),
                at: end,
                key: key_of_end(refdes, pin, Some(net), i),
                dir: d,
                stub: Some(p),
            };
            let ghost lv = l@;
            self.labels.push(l);
            assert(labels_v(self.labels@) =~= b.labels.push(lv));
            assert(self@.labels =~= w0.labels + stub_labels(
                ends@,
                refdes@,
                pin@,
                net@,
                i + 1,
            ));
            assert(self@ =~= WriterV {
                labels: w0.labels + stub_labels(ends@, refdes@, pin@, net@, i + 1),
                ..w0
            });
            i += 1;
        }
        Ok(())
    }

    /// Marks each end of a pin as meant to stay open.
    pub fn add_no_connect(&mut self, gallery: &Gallery, refdes: &str, pin: &str) -> (r: Result<
        (),
        EmitError,
    >)
        ensures
            match pin_ends(old(self)@, *gallery, refdes@, pin@) {
                Ok(v) => r is Ok && final(self)@ == (WriterV {
                    no_connects: old(self)@.no_connects + end_marks(
                        v,
                        refdes@,
                        pin@,
                        v.len() as int,
                    ),
                    ..old(self)@
                }),
                Err(e) => r is Err && r->Err_0@ == e && final(self)@ == old(self)@,
            },
    {
        let ghost w0 = self@;
        let ends = match self.pin_dirs(gallery, refdes, pin) {
            Ok(v) => v,
            Err(e) => return Err(e),
        };
        let mut i: usize = 0;
        assert(self@ =~= WriterV {
            no_connects: w0.no_connects + end_marks(ends@, refdes@, pin@, 0),
            ..w0
        });
        while i < ends.len()
            invariant
                i <= ends@.len(),
                self@ == (WriterV {
                    no_connects: w0.no_connects + end_marks(ends@, refdes@, pin@, i as int),
                    ..w0
                }),
            decreases ends@.len() - i,
        {
            let ghost b = self@;
            let m = Mark { at: ends[i].at, key: key_of_end(refdes, pin, None, i) };
            let ghost mv = m@;
            self.no_connects.push(m);
            assert(marks_v(self.no_connects@) =~= b.no_connects.push(mv));
            assert(self@.no_connects =~= w0.no_connects + end_marks(
                ends@,
                refdes@,
                pin@,
                i + 1,
            ));
            assert(self@ =~= WriterV {
                no_connects: w0.no_connects + end_marks(ends@, refdes@, pin@, i + 1),
                ..w0
            });
            i += 1;
        }
        Ok(())
    }
}

fn ends_like(g: &SymbolGeometry, pin: &str, by_name: bool, inst: &Instance) -> (r: Vec<PinEnd>)
    ensures
        ({
            let m = pins_like(g.pins@, pin@, by_name, g.pins@.len() as int);
            r@ == Seq::new(
                m.len(),
                |k: int|
                    PinEnd {
                        at: endpoint(m[k].at, inst.at, inst.angle as int, inst.mirror),
                        dir: outward(m[k].angle as int, inst.angle as int, inst.mirror),
                    },
            )
        }),
{
    let mut r: Vec<PinEnd> = Vec::new();
    let mut i: usize = 0;
    while i < g.pins.len()
        invariant
            i <= g.pins@.len(),
            ({
                let m = pins_like(g.pins@, pin@, by_name, i as int);
                r@ =~= Seq::new(
                    m.len(),
                    |k: int|
                        PinEnd {
                            at: endpoint(m[k].at, inst.at, inst.angle as int, inst.mirror),
                            dir: outward(m[k].angle as int, inst.angle as int, inst.mirror),
                        },
                )
            }),
        decreases g.pins@.len() - i,
    {
        let p = &g.pins[i];
        let own = if by_name { p.name.as_str() } else { p.number.as_str() };
        if same(own, pin) {
            r.push(
                PinEnd {
                    at: pin_endpoint(p, inst.at, inst.angle, inst.mirror),
                    dir: quantize_dir(p.angle, inst.angle, inst.mirror),
                },
            );
        }
        i += 1;
    }
    r
}

} // verus!
