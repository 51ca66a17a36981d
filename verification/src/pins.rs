//! Drawing the connections at the pins of one instance: labels, power symbols and no-connect marks.
use crate::engine;
use crate::engine::{
    is_pin_name, is_pin_number, listed, points_to, text_slot, visible_pins, TextSlot,
};
use crate::geo;
use crate::geo::{
    flag_at_symbol_get, flag_at_symbol_set, is_gnd, power_rot, rot_label, Geo, GeoV, LayoutError,
    Session, PSTUB, STUB,
};
use crate::geom;
use crate::geom::{floor_div, manhattan_dist, max_i, min_i, overlap, BBox, Dir, Mirror, Pt, GRID};
use crate::group::outward;
use crate::order;
use crate::order::order_by_key;
use crate::order_map;
use crate::order_map::OrderMap;
use crate::symlib;
use crate::symlib::{mirror_of, pin_point, turned_dir, Pin, SymbolInfo, TEXT_MAX};
use crate::text;
use crate::text::{chars_of, concat3, join, of_chars, same, split};
use vstd::prelude::*;

verus! {

/// What is to be drawn at a pin, in detail.
#[derive(Debug)]
pub struct PinWishes {
    /// Marked as not connected.
    pub nc: bool,
    /// A power symbol of this net.
    pub power: Option<String>,
    /// A label of this net.
    pub net: Option<String>,
    pub label: Option<String>,
    /// Length of the label's stub.
    pub stub: Option<i64>,
    pub kind: Option<String>,
    pub shape: Option<String>,
    /// The wishes as they were written.
    pub shown: String,
}

/// What is to be drawn at a pin.
#[derive(Debug)]
pub enum PinSpec {
    /// Nothing said: the default holds.
    Null,
    /// `nc`, `float`, `wired`, `labelled`, `label`, or the name of a net.
    Word(String),
    Detail(PinWishes),
}

/// The wishes at a pin, in detail.
#[verifier::ext_equal]
pub struct DetailV {
    pub nc: bool,
    pub power: Option<Seq<char>>,
    pub net: Option<Seq<char>>,
    pub label: Option<Seq<char>>,
    pub stub: Option<int>,
    pub kind: Option<Seq<char>>,
    pub shape: Option<Seq<char>>,
    pub shown: Seq<char>,
}

#[verifier::ext_equal]
pub enum SpecV {
    Null,
    Word(Seq<char>),
    Detail(DetailV),
}

pub open spec fn text_v(v: Option<String>) -> Option<Seq<char>> {
    match v {
        Some(s) => Some(s@),
        None => None,
    }
}

impl View for PinWishes {
    type V = DetailV;

    open spec fn view(&self) -> DetailV {
        DetailV {
            nc: self.nc,
            power: text_v(self.power),
            net: text_v(self.net),
            label: text_v(self.label),
            stub: match self.stub {
                Some(v) => Some(v as int),
                None => None,
            },
            kind: text_v(self.kind),
            shape: text_v(self.shape),
            shown: self.shown@,
        }
    }
}

impl View for PinSpec {
    type V = SpecV;

    open spec fn view(&self) -> SpecV {
        match self {
            PinSpec::Null => SpecV::Null,
            PinSpec::Word(w) => SpecV::Word(w@),
            PinSpec::Detail(m) => SpecV::Detail(m@),
        }
    }
}

pub open spec fn wishes_v(v: Seq<(String, PinSpec)>) -> Seq<(Seq<char>, SpecV)> {
    Seq::new(v.len(), |i: int| (v[i].0@, v[i].1@))
}

/// What a pin gets.
#[verifier::ext_equal]
pub enum WishV {
    Open,
    Cross,
    Rail(Seq<char>),
    Label { net: Seq<char>, stub: int, kind: Seq<char>, shape: Seq<char> },
    Bad(Seq<char>),
}

/// A length cut to whole grid steps.
pub open spec fn whole_steps(v: int) -> int {
    if v >= 0 {
        v / (GRID as int) * GRID
    } else {
        -((-v) / (GRID as int) * GRID)
    }
}

pub open spec fn text_or(v: Option<Seq<char>>, other: Seq<char>) -> Seq<char> {
    match v {
        Some(s) => s,
        None => other,
    }
}

pub open spec fn detail_label(m: DetailV, net: Seq<char>) -> WishV {
    WishV::Label {
        net,
        stub: match m.stub {
            Some(v) => whole_steps(v),
            None => STUB as int,
        },
        kind: text_or(m.kind, "local"@),
        shape: text_or(m.shape, "input"@),
    }
}

pub open spec fn wishes_spec(m: DetailV) -> WishV {
    if m.nc {
        WishV::Cross
    } else {
        match (m.power, m.net, m.label) {
            (Some(p), _, _) => WishV::Rail(p),
            (None, Some(n), _) => detail_label(m, n),
            (None, None, Some(n)) => detail_label(m, n),
            (None, None, None) => WishV::Bad(m.shown),
        }
    }
}

/// What a pin gets under a wish, or under the default where none is given.
pub open spec fn wish_spec(spec: SpecV, default: SpecV, p: Pin) -> WishV {
    let s = if spec is Null {
        default
    } else {
        spec
    };
    match s {
        SpecV::Null => WishV::Bad("null"@),
        SpecV::Word(w) => if w == "float"@ || w == "wired"@ || w == "labelled"@ {
            WishV::Open
        } else if w == "nc"@ {
            WishV::Cross
        } else {
            WishV::Label {
                net: engine::default_net(p, w),
                stub: STUB as int,
                kind: "local"@,
                shape: "input"@,
            }
        },
        SpecV::Detail(m) => wishes_spec(m),
    }
}

/// Whether a key means the pin: by number where a pin has that number, else by name.
pub open spec fn meant(pins: Seq<Pin>, key: Seq<char>, p: Pin) -> bool {
    if engine::has_number(pins, key) {
        p.number@ == key
    } else {
        p.name@ == key
    }
}

/// The choices after the first `n` pins have been held against a key.
pub open spec fn choose_pins(
    m: Seq<(Seq<char>, usize)>,
    pins: Seq<Pin>,
    key: Seq<char>,
    at: usize,
    n: int,
) -> Seq<(Seq<char>, usize)>
    decreases n,
{
    if n <= 0 {
        m
    } else {
        let before = choose_pins(m, pins, key, at, n - 1);
        if meant(pins, key, pins[n - 1]) {
            order_map::put(before, pins[n - 1].number@, at)
        } else {
            before
        }
    }
}

/// Pin number to position of its wish, after the first `n` wishes.
pub open spec fn chosen(pins: Seq<Pin>, wishes: Seq<(Seq<char>, SpecV)>, n: int) -> Seq<
    (Seq<char>, usize),
>
    decreases n,
{
    if n <= 0 {
        Seq::empty()
    } else {
        choose_pins(
            chosen(pins, wishes, n - 1),
            pins,
            wishes[n - 1].0,
            (n - 1) as usize,
            pins.len() as int,
        )
    }
}

/// The first wish whose key names no pin, or the length.
pub open spec fn first_stray(pins: Seq<Pin>, wishes: Seq<(Seq<char>, SpecV)>, i: int) -> int
    decreases wishes.len() - i,
{
    if i < 0 || i >= wishes.len() {
        wishes.len() as int
    } else if !engine::has_number(pins, wishes[i].0) && !engine::has_name(pins, wishes[i].0) {
        i
    } else {
        first_stray(pins, wishes, i + 1)
    }
}

pub open spec fn stray_message(lib: Seq<char>, key: Seq<char>, pins: Seq<Pin>) -> Seq<char> {
    let all = engine::pin_listing(pins);
    lib + ": no pin '"@ + key + "' (pins: "@ + all.take(geom::lo(all.len() as int, 500)) + ")"@
}

pub open spec fn bad_message(lib: Seq<char>, number: Seq<char>, shown: Seq<char>) -> Seq<char> {
    lib + " pin "@ + number + ": bad spec "@ + shown
}

/// Everything that fixes what is drawn at the pins of an instance.
pub struct PinsCtx {
    pub pins: Seq<Pin>,
    pub wishes: Seq<(Seq<char>, SpecV)>,
    pub default: SpecV,
    pub skip: Seq<Seq<char>>,
    pub at: Pt,
    pub rot: int,
    pub flip: Mirror,
}

impl PinsCtx {
    /// What is noted for a pin.
    pub open spec fn noted(&self, p: Pin) -> SpecV {
        match order_map::look(
            chosen(self.pins, self.wishes, self.wishes.len() as int),
            p.number@,
        ) {
            Some(i) => self.wishes[i as int].1,
            None => self.default,
        }
    }

    pub open spec fn pos(&self, p: Pin) -> Pt {
        symlib::pin_at(p, self.at, self.rot, self.flip)
    }

    pub open spec fn dir(&self, p: Pin) -> Dir {
        symlib::pin_dir_spec(p, self.rot, self.flip)
    }
}

/// Pins of one net that leave on one side.
pub type RailV = (Dir, Seq<char>, Seq<Pt>);

pub open spec fn seek_rail(rails: Seq<RailV>, d: Dir, net: Seq<char>, i: int) -> int
    decreases rails.len() - i,
{
    if i < 0 || i >= rails.len() {
        rails.len() as int
    } else if rails[i].0 == d && rails[i].1 == net {
        i
    } else {
        seek_rail(rails, d, net, i + 1)
    }
}

pub open spec fn join_rail(rails: Seq<RailV>, d: Dir, net: Seq<char>, pos: Pt) -> Seq<RailV> {
    let i = seek_rail(rails, d, net, 0);
    if i < rails.len() {
        rails.update(i, (d, net, rails[i].2.push(pos)))
    } else {
        rails.push((d, net, seq![pos]))
    }
}

/// What has been drawn at the first pins, and the rails they are on.
pub struct PinsV {
    pub g: GeoV,
    pub rails: Seq<RailV>,
    /// The pin at which drawing stopped, and its wish.
    pub bad: Option<(int, Seq<char>)>,
}

pub open spec fn pins_drawn(c: PinsCtx, g: GeoV, n: int) -> PinsV
    decreases n,
{
    if n <= 0 {
        PinsV { g, rails: Seq::empty(), bad: None }
    } else {
        let before = pins_drawn(c, g, n - 1);
        let p = c.pins[n - 1];
        let pos = c.pos(p);
        let d = c.dir(p);
        if before.bad is Some || c.skip.contains(p.number@) {
            before
        } else {
            match wish_spec(c.noted(p), c.default, p) {
                WishV::Open => before,
                WishV::Cross => PinsV { g: before.g.with_nc(pos), ..before },
                WishV::Rail(net) => PinsV {
                    rails: join_rail(before.rails, d, net, pos),
                    ..before
                },
                WishV::Label { net, stub, kind, shape } => {
                    let end = geom::step(pos, d, stub);
                    PinsV {
                        g: before.g.with_wire(seq![pos, end]).with_label(
                            net,
                            end,
                            geo::rot_label_spec(d),
                            kind,
                            shape,
                        ),
                        ..before
                    }
                },
                WishV::Bad(shown) => PinsV { bad: Some((n - 1, shown)), ..before },
            }
        }
    }
}

/// A coordinate in hundredths of a grid step, rounded away from zero at the half.
pub open spec fn hundredths(v: int) -> int {
    if v >= 0 {
        (v + 635) / 1270
    } else {
        -((635 - v) / 1270)
    }
}

pub open spec fn spot(x: int, y: int) -> (i64, i64) {
    (hundredths(x) as i64, hundredths(y) as i64)
}

/// Whether a pin leaves the room beside it free.
pub open spec fn leaves_room(s: SpecV) -> bool {
    match s {
        SpecV::Null => true,
        SpecV::Word(w) => w == "float"@ || w == "nc"@ || w == "wired"@,
        SpecV::Detail(m) => m.nc,
    }
}

/// Spots of the first `n` pins that take the room beside them.
pub open spec fn taken_spots(c: PinsCtx, n: int) -> Seq<(i64, i64)>
    decreases n,
{
    if n <= 0 {
        Seq::empty()
    } else {
        let before = taken_spots(c, n - 1);
        let p = c.pins[n - 1];
        if leaves_room(c.noted(p)) {
            before
        } else {
            before.push(spot(c.pos(p).x as int, c.pos(p).y as int))
        }
    }
}

/// Spots that the texts of a connector need in front of its first `n` pins: `dy` is the side.
pub open spec fn text_spots(c: PinsCtx, dy: int, n: int) -> Seq<(i64, i64)>
    decreases n,
{
    if n <= 0 {
        Seq::empty()
    } else {
        let p = c.pos(c.pins[n - 1]);
        text_spots(c, dy, n - 1).push(spot(p.x as int, p.y + dy * 254_000)).push(
            spot(p.x as int, p.y + dy * 508_000),
        )
    }
}

/// The side on which a connector's texts stand in the way of power stubs.
pub open spec fn text_side(c: PinsCtx, all: Seq<Pin>, connector: bool) -> int {
    let lateral = engine::points(c.pins, c.rot, c.flip, (1i32, 0i32)) || engine::points(
        c.pins,
        c.rot,
        c.flip,
        (-1i32, 0i32),
    );
    if !connector || lateral {
        0
    } else {
        match engine::text_slot_spec(all, c.rot, c.flip) {
            TextSlot::Above => -1,
            TextSlot::Below => 1,
            _ => 0,
        }
    }
}

/// The spots that no power stub may turn into.
pub open spec fn taken(c: PinsCtx, all: Seq<Pin>, connector: bool) -> Seq<(i64, i64)> {
    let side = text_side(c, all, connector);
    let n = c.pins.len() as int;
    if side == 0 {
        taken_spots(c, n)
    } else {
        taken_spots(c, n) + text_spots(c, side, n)
    }
}

pub open spec fn is_free(occ: Seq<(i64, i64)>, x: int, y: int) -> bool {
    !occ.contains(spot(x, y))
}

/// The pins of a rail by position.
pub open spec fn sorted_pts(v: Seq<Pt>) -> Seq<Pt> {
    let o = order::by_key(Seq::new(v.len(), |i: int| (v[i].x, v[i].y, 0i64)));
    Seq::new(v.len(), |i: int| v[o[i]])
}

/// The first `n` pins, split where the next is more than four steps away.
pub open spec fn runs_of(v: Seq<Pt>, n: int) -> Seq<Seq<Pt>>
    decreases n,
{
    if n <= 0 {
        Seq::empty()
    } else {
        let before = runs_of(v, n - 1);
        if n > 1 && geom::manhattan(v[n - 1], v[n - 2]) <= 509_270 {
            before.update(before.len() - 1, before.last().push(v[n - 1]))
        } else {
            before.push(seq![v[n - 1]])
        }
    }
}

/// What is drawn, and which nets still want a flag beside a symbol.
#[verifier::ext_equal]
pub struct InkV {
    pub g: GeoV,
    pub flags: Seq<(Seq<char>, bool)>,
}

pub open spec fn flag_box(p: Pt, far: Pt) -> BBox {
    engine::bx(
        geom::lo(p.x as int, far.x as int) - 571_500,
        p.y - 762_000,
        geom::hi(p.x as int, far.x as int) + 571_500,
        p.y + 127_000,
    )
}

/// No box but the last is in the way.
pub open spec fn clear_of(bs: Seq<BBox>, b: BBox) -> bool {
    forall|i: int| 0 <= i < bs.len() - 1 ==> !geom::overlap_spec(b, #[trigger] bs[i], 0)
}

pub open spec fn flagged(ink: InkV, net: Seq<char>, p: Pt, far: Pt) -> InkV {
    InkV {
        g: ink.g.with_wire(seq![p, far]).with_power("PWR_FLAG"@, far, 0),
        flags: order_map::put(ink.flags, net, true),
    }
}

/// A PWR_FLAG beside a power symbol at `pt`, for a net that wants one, on the first clear side.
pub open spec fn flag_spec(ink: InkV, net: Seq<char>, pt: Pt, d: Dir) -> InkV {
    let p = if d.0 == 0 {
        Pt { x: pt.x, y: (pt.y - d.1 * 254_000) as i64 }
    } else {
        pt
    };
    let s = if d.0 == 0 {
        1int
    } else {
        d.0 as int
    };
    let one = Pt { x: (p.x + s * 1_016_000) as i64, y: p.y };
    let other = Pt { x: (p.x - s * 1_016_000) as i64, y: p.y };
    if order_map::look(ink.flags, net) != Some(false) {
        ink
    } else if clear_of(ink.g.boxes, flag_box(p, one)) {
        flagged(ink, net, p, one)
    } else if d.0 == 0 && clear_of(ink.g.boxes, flag_box(p, other)) {
        flagged(ink, net, p, other)
    } else {
        ink
    }
}

pub open spec fn stub_ends(run: Seq<Pt>, d: Dir, stub: int) -> Seq<Pt> {
    Seq::new(run.len(), |i: int| geom::step(run[i], d, stub))
}

pub open spec fn stub_wires(g: GeoV, run: Seq<Pt>, ends: Seq<Pt>, n: int) -> GeoV
    decreases n,
{
    if n <= 0 {
        g
    } else {
        stub_wires(g, run, ends, n - 1).with_wire(seq![run[n - 1], ends[n - 1]])
    }
}

/// Labels at the first `n` stub ends.
pub open spec fn end_labels(g: GeoV, ends: Seq<Pt>, d: Dir, net: Seq<char>, n: int) -> GeoV
    decreases n,
{
    if n <= 0 {
        g
    } else {
        let far = geom::step(ends[n - 1], d, STUB - PSTUB);
        end_labels(g, ends, d, net, n - 1).with_wire(seq![ends[n - 1], far]).with_label(
            net,
            far,
            geo::rot_label_spec(d),
            "global"@,
            "input"@,
        )
    }
}

/// The stub length of a run.
pub open spec fn stub_len(d: Dir, pins: int) -> int {
    if d.1 != 0 && pins <= 4 {
        PSTUB as int
    } else {
        PSTUB * 2
    }
}

/// The run's stubs and the rail that joins them.
pub open spec fn run_stubs(g: GeoV, run: Seq<Pt>, ends: Seq<Pt>) -> GeoV {
    let g1 = stub_wires(g, run, ends, run.len() as int);
    if run.len() > 1 {
        g1.with_wire(seq![ends[0], ends.last()])
    } else {
        g1
    }
}

pub open spec fn crowded(occ: Seq<(i64, i64)>, first: Pt, last: Pt) -> bool {
    ||| !is_free(occ, first.x - 254_000, first.y as int)
    ||| !is_free(occ, last.x + 254_000, last.y as int)
    ||| !is_free(occ, first.x - 508_000, first.y as int)
    ||| !is_free(occ, last.x + 508_000, last.y as int)
}

/// A run that leaves upward or downward.
pub open spec fn upright_run(ink: InkV, run: Seq<Pt>, d: Dir, net: Seq<char>, pins: int, occ: Seq<(i64, i64)>) -> InkV {
    let ends = stub_ends(run, d, stub_len(d, pins));
    let g = run_stubs(ink.g, run, ends);
    let tight = crowded(occ, run[0], run.last());
    if run.len() == 1 {
        if tight {
            InkV { g: end_labels(g, ends, d, net, 1), ..ink }
        } else {
            flag_spec(
                InkV { g: g.with_power(net, ends[0], geo::power_rot_spec(net, d)), ..ink },
                net,
                ends[0],
                d,
            )
        }
    } else {
        let mid = ends[(ends.len() - 1) / 2];
        let far = geom::step(mid, d, PSTUB as int);
        let g1 = g.with_wire(seq![mid, far]);
        InkV {
            g: if tight {
                g1.with_label(net, far, geo::rot_label_spec(d), "global"@, "input"@)
            } else {
                g1.with_power(net, far, geo::power_rot_spec(net, d))
            },
            ..ink
        }
    }
}

/// Both spots above or below a pin are free.
pub open spec fn turn_free(occ: Seq<(i64, i64)>, p: Pt, dy: int) -> bool {
    is_free(occ, p.x as int, p.y + 254_000 * dy) && is_free(occ, p.x as int, p.y + 508_000 * dy)
}

/// Which way a side run turns: at the last pin or the first, up or down.
pub open spec fn turn_of(run: Seq<Pt>, net: Seq<char>, occ: Seq<(i64, i64)>) -> Option<(bool, int)> {
    let up = !geo::gnd_spec(net);
    let dy = if up {
        -1int
    } else {
        1
    };
    let near = if up {
        run[0]
    } else {
        run.last()
    };
    let away = if up {
        run.last()
    } else {
        run[0]
    };
    if turn_free(occ, near, dy) {
        Some((!up, dy))
    } else if turn_free(occ, away, -dy) {
        Some((up, -dy))
    } else {
        None
    }
}

/// A run that leaves to the side.
pub open spec fn side_run(ink: InkV, run: Seq<Pt>, d: Dir, net: Seq<char>, pins: int, occ: Seq<(i64, i64)>) -> InkV {
    let ends = stub_ends(run, d, stub_len(d, pins));
    let g = run_stubs(ink.g, run, ends);
    match turn_of(run, net, occ) {
        Some((at_last, dy)) => {
            let p = if at_last {
                ends.last()
            } else {
                ends[0]
            };
            let far = Pt { x: p.x, y: (p.y + 508_000 * dy) as i64 };
            flag_spec(
                InkV { g: g.with_wire(seq![p, far]).with_power(net, far, 0), ..ink },
                net,
                far,
                (0i32, dy as i32),
            )
        },
        None => InkV { g: end_labels(g, ends, d, net, ends.len() as int), ..ink },
    }
}

pub open spec fn run_spec(ink: InkV, run: Seq<Pt>, d: Dir, net: Seq<char>, pins: int, occ: Seq<(i64, i64)>) -> InkV {
    if d.1 != 0 {
        upright_run(ink, run, d, net, pins, occ)
    } else {
        side_run(ink, run, d, net, pins, occ)
    }
}

pub open spec fn runs_drawn(ink: InkV, runs: Seq<Seq<Pt>>, d: Dir, net: Seq<char>, pins: int, occ: Seq<(i64, i64)>, n: int) -> InkV
    decreases n,
{
    if n <= 0 {
        ink
    } else {
        run_spec(runs_drawn(ink, runs, d, net, pins, occ, n - 1), runs[n - 1], d, net, pins, occ)
    }
}

/// The drawing after the first `n` rails.
pub open spec fn rails_drawn(ink: InkV, rails: Seq<RailV>, pins: int, occ: Seq<(i64, i64)>, n: int) -> InkV
    decreases n,
{
    if n <= 0 {
        ink
    } else {
        let r = rails[n - 1];
        let runs = runs_of(sorted_pts(r.2), r.2.len() as int);
        runs_drawn(
            rails_drawn(ink, rails, pins, occ, n - 1),
            runs,
            r.0,
            r.1,
            pins,
            occ,
            runs.len() as int,
        )
    }
}

pub open spec fn short(v: Option<Seq<char>>) -> bool {
    v is Some ==> v->0.len() <= TEXT_MAX
}

/// A wish of a size that can be drawn.
pub open spec fn spec_ok(s: SpecV) -> bool {
    match s {
        SpecV::Null => true,
        SpecV::Word(w) => w.len() <= TEXT_MAX,
        SpecV::Detail(m) => {
            &&& short(m.power)
            &&& short(m.net)
            &&& short(m.label)
            &&& m.stub is Some ==> -0x1000_0000 <= m.stub->0 <= 0x1000_0000
        },
    }
}

pub open spec fn specs_ok(v: Seq<(Seq<char>, SpecV)>) -> bool {
    forall|i: int| 0 <= i < v.len() ==> spec_ok((#[trigger] v[i]).1)
}

pub open spec fn texts_ok(pins: Seq<Pin>) -> bool {
    forall|i: int|
        0 <= i < pins.len() ==> (#[trigger] pins[i]).name@.len() <= TEXT_MAX && pins[i].number@.len()
            <= TEXT_MAX
}

pub open spec fn boxes_ok(g: GeoV) -> bool {
    forall|i: int| 0 <= i < g.boxes.len() ==> geom::box_ok(#[trigger] g.boxes[i])
}

/// What a pin gets.
pub enum Wish {
    Open,
    Cross,
    Rail(String),
    Label { net: String, stub: i64, kind: String, shape: String },
    Bad(String),
}

impl View for Wish {
    type V = WishV;

    open spec fn view(&self) -> WishV {
        match self {
            Wish::Open => WishV::Open,
            Wish::Cross => WishV::Cross,
            Wish::Rail(net) => WishV::Rail(net@),
            Wish::Label { net, stub, kind, shape } => WishV::Label {
                net: net@,
                stub: *stub as int,
                kind: kind@,
                shape: shape@,
            },
            Wish::Bad(shown) => WishV::Bad(shown@),
        }
    }
}

spec fn wish_ok(w: WishV) -> bool {
    match w {
        WishV::Rail(net) => net.len() <= TEXT_MAX,
        WishV::Label { net, stub, .. } => net.len() <= TEXT_MAX && -0x1000_0000 <= stub <= 0x1000_0000,
        _ => true,
    }
}

fn cut_to_steps(v: i64) -> (r: i64)
    requires
        -0x1000_0000 <= v <= 0x1000_0000,
    ensures
        r == whole_steps(v as int),
        -0x1000_0000 <= r <= 0x1000_0000,
{
    if v >= 0 {
        let q: i64 = floor_div(v, GRID);
        assert(0 <= q * 127_000 <= v);
        q * GRID
    } else {
        let q: i64 = floor_div(-v, GRID);
        assert(0 <= q * 127_000 <= -v);
        -(q * GRID)
    }
}

fn given_or(v: &Option<String>, other: &str) -> (r: String)
    ensures
        r@ == text_or(text_v(*v), other@),
{
    match v {
        Some(s) => s.clone(),
        None => other.to_owned(),
    }
}

fn detail_wish(m: &PinWishes) -> (w: Wish)
    requires
        spec_ok(SpecV::Detail(m@)),
    ensures
        w@ == wishes_spec(m@),
        wish_ok(w@),
{
    if m.nc {
        return Wish::Cross;
    }
    if let Some(p) = &m.power {
        return Wish::Rail(p.clone());
    }
    let net = match &m.net {
        Some(n) => n.clone(),
        None => match &m.label {
            Some(n) => n.clone(),
            None => {
                return Wish::Bad(m.shown.clone());
            },
        },
    };
    let stub: i64 = match m.stub {
        Some(v) => cut_to_steps(v),
        None => STUB,
    };
    Wish::Label {
        net,
        stub,
        kind: given_or(&m.kind, "local"),
        shape: given_or(&m.shape, "input"),
    }
}

fn own_label(p: &Pin) -> (r: String)
    ensures
        r@ == engine::default_net(*p, "label"@),
{
    let parts = split(p.name.as_str(), '/');
    assert(text::views(parts@)[0] == parts@[0]@);
    if parts[0].as_str().unicode_len() == 0 {
        p.number.clone()
    } else {
        parts[0].clone()
    }
}

proof fn lemma_piece_len(s: Seq<char>, c: char, i: int, cur: Seq<char>)
    requires
        0 <= i <= s.len(),
        cur.len() <= i,
    ensures
        text::pieces_from(s, c, i, cur).len() >= 1,
        text::pieces_from(s, c, i, cur)[0].len() <= s.len(),
    decreases s.len() - i,
{
    if i < s.len() {
        if s[i] == c {
            lemma_piece_len(s, c, i + 1, Seq::empty());
        } else {
            lemma_piece_len(s, c, i + 1, cur.push(s[i]));
        }
    }
}

fn wish(spec: &PinSpec, default: &PinSpec, p: &Pin) -> (w: Wish)
    requires
        spec_ok(spec@),
        spec_ok(default@),
        p.name@.len() <= TEXT_MAX,
        p.number@.len() <= TEXT_MAX,
    ensures
        w@ == wish_spec(spec@, default@, *p),
        wish_ok(w@),
{
    let s = match spec {
        PinSpec::Null => default,
        _ => spec,
    };
    match s {
        PinSpec::Null => Wish::Bad("null".to_owned()),
        PinSpec::Word(word) => {
            let t = word.as_str();
            if same(t, "float") || same(t, "wired") || same(t, "labelled") {
                Wish::Open
            } else if same(t, "nc") {
                Wish::Cross
            } else {
                proof {
                    lemma_piece_len(p.name@, '/', 0, Seq::empty());
                }
                let net = if same(t, "label") {
                    own_label(p)
                } else {
                    word.clone()
                };
                Wish::Label {
                    net,
                    stub: STUB,
                    kind: "local".to_owned(),
                    shape: "input".to_owned(),
                }
            }
        },
        PinSpec::Detail(m) => detail_wish(m),
    }
}

/// The spot of a point.
fn spot_of(x: i64, y: i64) -> (r: (i64, i64))
    requires
        symlib::wide(x as int),
        symlib::wide(y as int),
    ensures
        r == spot(x as int, y as int),
{
    (hundredth(x), hundredth(y))
}

fn hundredth(v: i64) -> (r: i64)
    requires
        symlib::wide(v as int),
    ensures
        r == hundredths(v as int),
{
    if v >= 0 {
        (v + 635) / 1270
    } else {
        -((635 - v) / 1270)
    }
}

fn free_at(occ: &Vec<(i64, i64)>, x: i64, y: i64) -> (r: bool)
    requires
        symlib::wide(x as int),
        symlib::wide(y as int),
    ensures
        r == is_free(occ@, x as int, y as int),
{
    let s: (i64, i64) = spot_of(x, y);
    let mut i: usize = 0;
    while i < occ.len()
        invariant
            i <= occ@.len(),
            s == spot(x as int, y as int),
            forall|j: int| 0 <= j < i ==> #[trigger] occ@[j] != s,
        decreases occ@.len() - i,
    {
        if occ[i].0 == s.0 && occ[i].1 == s.1 {
            assert(occ@[i as int] == s);
            return false;
        }
        i += 1;
    }
    true
}

/// The drawing and the flags.
spec fn ink_of(g: Geo, s: Session) -> InkV {
    InkV { g: g@, flags: order_map::plain_pairs(s.flags) }
}

fn is_clear(g: &Geo, b: &BBox) -> (r: bool)
    requires
        boxes_ok(g@),
        geom::box_ok(*b),
    ensures
        r == clear_of(g@.boxes, *b),
{
    if g.boxes.len() == 0 {
        return true;
    }
    let n: usize = g.boxes.len() - 1;
    let mut i: usize = 0;
    while i < n
        invariant
            i <= n,
            n == g@.boxes.len() - 1,
            g@.boxes == g.boxes@,
            boxes_ok(g@),
            geom::box_ok(*b),
            forall|j: int| 0 <= j < i ==> !geom::overlap_spec(*b, #[trigger] g@.boxes[j], 0),
        decreases n - i,
    {
        assert(geom::box_ok(g@.boxes[i as int]));
        if overlap(b, &g.boxes[i], 0) {
            assert(geom::overlap_spec(*b, g@.boxes[i as int], 0));
            return false;
        }
        i += 1;
    }
    true
}

proof fn lemma_boxes_push(a: GeoV, b: GeoV)
    requires
        boxes_ok(a),
        b.boxes.len() == a.boxes.len() + 1,
        b.boxes.take(a.boxes.len() as int) =~= a.boxes,
        geom::box_ok(b.boxes.last()),
    ensures
        boxes_ok(b),
{
    assert forall|i: int| 0 <= i < b.boxes.len() implies geom::box_ok(#[trigger] b.boxes[i]) by {
        if i < a.boxes.len() {
            assert(b.boxes[i] == b.boxes.take(a.boxes.len() as int)[i]);
            assert(geom::box_ok(a.boxes[i]));
        }
    }
}

pub(crate) fn put_power(g: &mut Geo, net: &str, at: Pt, rot: i32)
    requires
        boxes_ok(old(g)@),
        symlib::wide_pt(at),
        net@.len() <= TEXT_MAX,
    ensures
        boxes_ok(final(g)@),
        final(g)@ == old(g)@.with_power(net@, at, rot as int),
{
    let ghost g0 = g@;
    g.add_power(net, at, rot);
    proof {
        lemma_boxes_push(g0, g@);
    }
}

fn put_label(g: &mut Geo, text: &str, at: Pt, rot: i32, kind: &str, shape: &str)
    requires
        boxes_ok(old(g)@),
        symlib::wide_pt(at),
        text@.len() <= TEXT_MAX,
    ensures
        boxes_ok(final(g)@),
        final(g)@ == old(g)@.with_label(text@, at, rot as int, kind@, shape@),
{
    let ghost g0 = g@;
    g.add_label(text, at, rot, kind, shape);
    proof {
        lemma_boxes_push(g0, g@);
    }
}

/// Attaches a PWR_FLAG beside a power symbol whose connection point is `pt`, where the net wants
/// one and there is room.
pub fn flag_next_to(g: &mut Geo, s: &mut Session, net: &str, pt: Pt, d: Dir)
    requires
        old(s).wf(),
        boxes_ok(old(g)@),
        symlib::wire_pt(pt),
        geom::is_dir(d),
    ensures
        final(s).wf(),
        final(s).extra == old(s).extra,
        boxes_ok(final(g)@),
        (InkV { g: final(g)@, flags: order_map::plain_pairs(final(s).flags) }) == flag_spec(
            InkV { g: old(g)@, flags: order_map::plain_pairs(old(s).flags) },
            net@,
            pt,
            d,
        ),
{
    proof {
        order_map::lemma_plain_found(s.flags, net@);
    }
    if flag_at_symbol_get(s, net) != Some(false) {
        return ;
    }
    let mut p = pt;
    let mut side: i64 = d.0 as i64;
    if d.0 == 0 {
        p = Pt { x: pt.x, y: pt.y - (d.1 as i64) * 254_000 };
        side = 1;
    }
    proof {
        reveal_strlit("PWR_FLAG");
    }
    let one = Pt { x: p.x + side * 1_016_000, y: p.y };
    let b = room_for_flag(p, one);
    if is_clear(g, &b) {
        g.add_line(p, one);
        put_power(g, "PWR_FLAG", one, 0);
        flag_at_symbol_set(s, net, true);
        return ;
    }
    if d.0 != 0 {
        return ;
    }
    let other = Pt { x: p.x - side * 1_016_000, y: p.y };
    let b2 = room_for_flag(p, other);
    if is_clear(g, &b2) {
        g.add_line(p, other);
        put_power(g, "PWR_FLAG", other, 0);
        flag_at_symbol_set(s, net, true);
    }
}

fn room_for_flag(p: Pt, far: Pt) -> (b: BBox)
    requires
        symlib::wide_pt(p),
        symlib::wide_pt(far),
    ensures
        b == flag_box(p, far),
        geom::box_ok(b),
{
    BBox {
        x0: min_i(p.x, far.x) - 571_500,
        y0: p.y - 762_000,
        x1: max_i(p.x, far.x) + 571_500,
        y1: p.y + 127_000,
    }
}

fn draw_stubs(g: &mut Geo, run: &Vec<Pt>, ends: &Vec<Pt>)
    requires
        run@.len() == ends@.len(),
        run@.len() >= 1,
        boxes_ok(old(g)@),
    ensures
        final(g)@ == run_stubs(old(g)@, run@, ends@),
        boxes_ok(final(g)@),
{
    let ghost g0 = g@;
    let mut i: usize = 0;
    while i < run.len()
        invariant
            i <= run@.len(),
            run@.len() == ends@.len(),
            g@ == stub_wires(g0, run@, ends@, i as int),
            g@.boxes == g0.boxes,
        decreases run@.len() - i,
    {
        g.add_line(run[i], ends[i]);
        i += 1;
    }
    let n: usize = ends.len();
    if n > 1 {
        g.add_line(ends[0], ends[n - 1]);
    }
}

fn label_ends(g: &mut Geo, ends: &Vec<Pt>, d: Dir, net: &str)
    requires
        boxes_ok(old(g)@),
        forall|i: int| 0 <= i < ends@.len() ==> symlib::wire_pt(#[trigger] ends@[i]),
        geom::is_dir(d),
        net@.len() <= TEXT_MAX,
    ensures
        final(g)@ == end_labels(old(g)@, ends@, d, net@, ends@.len() as int),
        boxes_ok(final(g)@),
{
    let ghost g0 = g@;
    let mut i: usize = 0;
    while i < ends.len()
        invariant
            i <= ends@.len(),
            boxes_ok(g@),
            forall|i: int| 0 <= i < ends@.len() ==> symlib::wire_pt(#[trigger] ends@[i]),
            geom::is_dir(d),
            net@.len() <= TEXT_MAX,
            g@ == end_labels(g0, ends@, d, net@, i as int),
        decreases ends@.len() - i,
    {
        assert(symlib::wire_pt(ends@[i as int]));
        let far = outward(ends[i], d, STUB - PSTUB);
        g.add_line(ends[i], far);
        put_label(g, net, far, rot_label(d), "global", "input");
        i += 1;
    }
}

fn ends_of_run(run: &Vec<Pt>, d: Dir, stub: i64) -> (r: Vec<Pt>)
    requires
        forall|i: int| 0 <= i < run@.len() ==> symlib::tip_pt(#[trigger] run@[i]),
        geom::is_dir(d),
        0 <= stub <= 1_000_000,
    ensures
        r@ == stub_ends(run@, d, stub as int),
        r@.len() == run@.len(),
        forall|i: int| 0 <= i < r@.len() ==> symlib::wire_pt(#[trigger] r@[i]),
{
    let mut r: Vec<Pt> = Vec::new();
    let mut i: usize = 0;
    while i < run.len()
        invariant
            i <= run@.len(),
            forall|i: int| 0 <= i < run@.len() ==> symlib::tip_pt(#[trigger] run@[i]),
            geom::is_dir(d),
            0 <= stub <= 1_000_000,
            r@.len() == i,
            forall|j: int| 0 <= j < i ==> #[trigger] r@[j] == geom::step(run@[j], d, stub as int),
            forall|j: int| 0 <= j < i ==> symlib::wire_pt(#[trigger] r@[j]),
        decreases run@.len() - i,
    {
        assert(symlib::tip_pt(run@[i as int]));
        let e = outward(run[i], d, stub);
        proof {
            assert(-1_000_000 <= d.0 * stub <= 1_000_000 && -1_000_000 <= d.1 * stub <= 1_000_000)
                by (nonlinear_arith)
                requires
                    -1 <= d.0 <= 1,
                    -1 <= d.1 <= 1,
                    0 <= stub <= 1_000_000,
            ;
        }
        r.push(e);
        i += 1;
    }
    assert(r@ =~= stub_ends(run@, d, stub as int));
    r
}

spec fn tips(v: Seq<Pt>) -> bool {
    forall|i: int| 0 <= i < v.len() ==> symlib::tip_pt(#[trigger] v[i])
}

fn draw_upright(
    g: &mut Geo,
    s: &mut Session,
    run: &Vec<Pt>,
    d: Dir,
    net: &str,
    pins: usize,
    occ: &Vec<(i64, i64)>,
)
    requires
        old(s).wf(),
        boxes_ok(old(g)@),
        run@.len() >= 1,
        tips(run@),
        geom::is_dir(d),
        d.1 != 0,
        net@.len() <= TEXT_MAX,
    ensures
        final(s).wf(),
        final(s).extra == old(s).extra,
        boxes_ok(final(g)@),
        ink_of(*final(g), *final(s)) == upright_run(
            ink_of(*old(g), *old(s)),
            run@,
            d,
            net@,
            pins as int,
            occ@,
        ),
{
    let stub: i64 = if pins <= 4 { PSTUB } else { PSTUB * 2 };
    let ends = ends_of_run(run, d, stub);
    draw_stubs(g, run, &ends);
    let n: usize = run.len();
    let first = run[0];
    let last = run[n - 1];
    assert(symlib::tip_pt(run@[0]) && symlib::tip_pt(run@[n - 1]));
    let tight = !free_at(occ, first.x - 254_000, first.y) || !free_at(
        occ,
        last.x + 254_000,
        last.y,
    ) || !free_at(occ, first.x - 508_000, first.y) || !free_at(occ, last.x + 508_000, last.y);
    if n == 1 {
        if tight {
            label_ends(g, &ends, d, net);
        } else {
            assert(symlib::wire_pt(ends@[0]));
            put_power(g, net, ends[0], power_rot(net, d));
            flag_next_to(g, s, net, ends[0], d);
        }
    } else {
        let mid = ends[(n - 1) / 2];
        assert(symlib::wire_pt(ends@[(n - 1) / 2]));
        let far = outward(mid, d, PSTUB);
        g.add_line(mid, far);
        if tight {
            put_label(g, net, far, rot_label(d), "global", "input");
        } else {
            put_power(g, net, far, power_rot(net, d));
        }
    }
}

fn is_turn_free(occ: &Vec<(i64, i64)>, p: Pt, dy: i64) -> (r: bool)
    requires
        symlib::tip_pt(p),
        dy == 1 || dy == -1,
    ensures
        r == turn_free(occ@, p, dy as int),
{
    free_at(occ, p.x, p.y + 254_000 * dy) && free_at(occ, p.x, p.y + 508_000 * dy)
}

fn draw_sideways(
    g: &mut Geo,
    s: &mut Session,
    run: &Vec<Pt>,
    d: Dir,
    net: &str,
    pins: usize,
    occ: &Vec<(i64, i64)>,
)
    requires
        old(s).wf(),
        boxes_ok(old(g)@),
        run@.len() >= 1,
        tips(run@),
        geom::is_dir(d),
        d.1 == 0,
        net@.len() <= TEXT_MAX,
    ensures
        final(s).wf(),
        final(s).extra == old(s).extra,
        boxes_ok(final(g)@),
        ink_of(*final(g), *final(s)) == side_run(
            ink_of(*old(g), *old(s)),
            run@,
            d,
            net@,
            pins as int,
            occ@,
        ),
{
    let ends = ends_of_run(run, d, PSTUB * 2);
    draw_stubs(g, run, &ends);
    let n: usize = run.len();
    assert(symlib::tip_pt(run@[0]) && symlib::tip_pt(run@[n - 1]));
    assert(symlib::wire_pt(ends@[0]) && symlib::wire_pt(ends@[n - 1]));
    let up = !is_gnd(net);
    let near = if up { run[0] } else { run[n - 1] };
    let away = if up { run[n - 1] } else { run[0] };
    let mut dy: i64 = if up { -1 } else { 1 };
    let mut at_last = !up;
    if !is_turn_free(occ, near, dy) {
        if !is_turn_free(occ, away, -dy) {
            label_ends(g, &ends, d, net);
            return ;
        }
        dy = -dy;
        at_last = up;
    }
    let p = if at_last { ends[n - 1] } else { ends[0] };
    assert(symlib::tip_pt(if at_last { run@[n - 1] } else { run@[0] }));
    assert(ends@[n - 1] == geom::step(run@[n - 1], d, 508_000));
    assert(ends@[0] == geom::step(run@[0], d, 508_000));
    let far = Pt { x: p.x, y: p.y + 508_000 * dy };
    assert(symlib::wire_pt(far));
    g.add_line(p, far);
    put_power(g, net, far, 0);
    flag_next_to(g, s, net, far, (0, dy as i32));
}

fn draw_runs(
    g: &mut Geo,
    s: &mut Session,
    runs: &Vec<Vec<Pt>>,
    d: Dir,
    net: &str,
    pins: usize,
    occ: &Vec<(i64, i64)>,
)
    requires
        old(s).wf(),
        boxes_ok(old(g)@),
        forall|i: int|
            0 <= i < runs@.len() ==> (#[trigger] runs@[i])@.len() >= 1 && tips(runs@[i]@),
        geom::is_dir(d),
        net@.len() <= TEXT_MAX,
    ensures
        final(s).wf(),
        final(s).extra == old(s).extra,
        boxes_ok(final(g)@),
        ink_of(*final(g), *final(s)) == runs_drawn(
            ink_of(*old(g), *old(s)),
            geo::paths_v(runs@),
            d,
            net@,
            pins as int,
            occ@,
            runs@.len() as int,
        ),
{
    let ghost ink = ink_of(*g, *s);
    let ghost extra = s.extra;
    let ghost rs = geo::paths_v(runs@);
    let mut i: usize = 0;
    while i < runs.len()
        invariant
            i <= runs@.len(),
            rs == geo::paths_v(runs@),
            s.wf(),
            s.extra == extra,
            boxes_ok(g@),
            forall|i: int|
                0 <= i < runs@.len() ==> (#[trigger] runs@[i])@.len() >= 1 && tips(runs@[i]@),
            geom::is_dir(d),
            net@.len() <= TEXT_MAX,
            ink_of(*g, *s) == runs_drawn(ink, rs, d, net@, pins as int, occ@, i as int),
        decreases runs@.len() - i,
    {
        assert(runs@[i as int]@.len() >= 1 && tips(runs@[i as int]@));
        assert(rs[i as int] == runs@[i as int]@);
        if d.1 != 0 {
            draw_upright(g, s, &runs[i], d, net, pins, occ);
        } else {
            draw_sideways(g, s, &runs[i], d, net, pins, occ);
        }
        i += 1;
    }
}

fn sort_points(v: &Vec<Pt>) -> (r: Vec<Pt>)
    requires
        tips(v@),
    ensures
        r@ == sorted_pts(v@),
        r@.len() == v@.len(),
        tips(r@),
{
    let mut keys: Vec<(i64, i64, i64)> = Vec::new();
    let mut i: usize = 0;
    while i < v.len()
        invariant
            i <= v@.len(),
            keys@.len() == i,
            forall|j: int| 0 <= j < i ==> #[trigger] keys@[j] == (v@[j].x, v@[j].y, 0i64),
        decreases v@.len() - i,
    {
        keys.push((v[i].x, v[i].y, 0));
        i += 1;
    }
    assert(keys@ =~= Seq::new(v@.len(), |i: int| (v@[i].x, v@[i].y, 0i64)));
    let o = order_by_key(&keys);
    let mut r: Vec<Pt> = Vec::new();
    i = 0;
    while i < o.len()
        invariant
            i <= o@.len(),
            o@.len() == v@.len(),
            tips(v@),
            forall|j: int| 0 <= j < o@.len() ==> #[trigger] o@[j] < v@.len(),
            r@.len() == i,
            tips(r@),
            forall|j: int| 0 <= j < i ==> #[trigger] r@[j] == v@[order::as_ints(o@)[j]],
        decreases o@.len() - i,
    {
        let k: usize = o[i];
        assert(k < v@.len());
        assert(symlib::tip_pt(v@[k as int]));
        r.push(v[k]);
        i += 1;
    }
    assert(r@ =~= sorted_pts(v@));
    r
}

fn split_runs(v: &Vec<Pt>) -> (r: Vec<Vec<Pt>>)
    requires
        tips(v@),
    ensures
        geo::paths_v(r@) == runs_of(v@, v@.len() as int),
        forall|i: int| 0 <= i < r@.len() ==> (#[trigger] r@[i])@.len() >= 1 && tips(r@[i]@),
{
    let mut r: Vec<Vec<Pt>> = Vec::new();
    let mut i: usize = 0;
    assert(geo::paths_v(r@) =~= runs_of(v@, 0));
    while i < v.len()
        invariant
            i <= v@.len(),
            tips(v@),
            geo::paths_v(r@) == runs_of(v@, i as int),
            i > 0 ==> r@.len() > 0,
            forall|i: int| 0 <= i < r@.len() ==> (#[trigger] r@[i])@.len() >= 1 && tips(r@[i]@),
        decreases v@.len() - i,
    {
        let ghost r0 = r@;
        assert(symlib::tip_pt(v@[i as int]));
        if i > 0 {
            assert(symlib::tip_pt(v@[i - 1]));
        }
        if i > 0 && manhattan_dist(v[i], v[i - 1]) <= 509_270 {
            let n: usize = r.len();
            let mut last: Vec<Pt> = match r.pop() {
                Some(l) => l,
                None => Vec::new(),
            };
            let ghost l0 = last@;
            assert(l0 == r0[n - 1]@);
            assert(r0[n - 1]@.len() >= 1 && tips(r0[n - 1]@));
            last.push(v[i]);
            let ghost l1 = last@;
            assert forall|j: int| 0 <= j < l1.len() implies symlib::tip_pt(#[trigger] l1[j]) by {
                if j < l0.len() {
                    assert(symlib::tip_pt(l0[j]));
                }
            }
            r.push(last);
            proof {
                assert(geo::paths_v(r@) =~= geo::paths_v(r0).update(n - 1, l1));
                assert forall|j: int| 0 <= j < r@.len() implies (#[trigger] r@[j])@.len() >= 1 && tips(
                    r@[j]@,
                ) by {
                    if j < n - 1 {
                        assert(r@[j] == r0[j]);
                    }
                }
            }
        } else {
            let mut one: Vec<Pt> = Vec::new();
            one.push(v[i]);
            assert(one@ =~= seq![v@[i as int]]);
            r.push(one);
            proof {
                assert(geo::paths_v(r@) =~= geo::paths_v(r0).push(seq![v@[i as int]]));
                assert forall|j: int| 0 <= j < r@.len() implies (#[trigger] r@[j])@.len() >= 1 && tips(
                    r@[j]@,
                ) by {
                    if j < r0.len() {
                        assert(r@[j] == r0[j]);
                    }
                }
            }
        }
        i += 1;
    }
    r
}

/// Pins of one net that leave on one side.
pub struct Rail {
    pub d: Dir,
    pub net: String,
    pub pts: Vec<Pt>,
}

pub open spec fn rails_v(v: Seq<Rail>) -> Seq<RailV> {
    Seq::new(v.len(), |i: int| (v[i].d, v[i].net@, v[i].pts@))
}

spec fn rails_ok(v: Seq<Rail>) -> bool {
    forall|i: int|
        0 <= i < v.len() ==> geom::is_dir((#[trigger] v[i]).d) && v[i].net@.len() <= TEXT_MAX && tips(
            v[i].pts@,
        ) && v[i].pts@.len() >= 1
}

fn add_to_rail(rails: &mut Vec<Rail>, d: Dir, net: String, pos: Pt)
    requires
        rails_ok(old(rails)@),
        geom::is_dir(d),
        net@.len() <= TEXT_MAX,
        symlib::tip_pt(pos),
    ensures
        rails_ok(final(rails)@),
        rails_v(final(rails)@) == join_rail(rails_v(old(rails)@), d, net@, pos),
{
    let ghost r0 = rails@;
    let ghost rv = rails_v(rails@);
    let mut i: usize = 0;
    while i < rails.len()
        invariant
            i <= rails@.len(),
            rails@ == r0,
            rv == rails_v(r0),
            rails_ok(r0),
            geom::is_dir(d),
            net@.len() <= TEXT_MAX,
            symlib::tip_pt(pos),
            rails_v(old(rails)@) == rv,
            seek_rail(rv, d, net@, 0) == seek_rail(rv, d, net@, i as int),
        decreases rails@.len() - i,
    {
        assert(rv[i as int] == (r0[i as int].d, r0[i as int].net@, r0[i as int].pts@));
        if rails[i].d.0 == d.0 && rails[i].d.1 == d.1 && rails[i].net == net {
            let mut pts: Vec<Pt> = crate::geo::dup_path(&rails[i].pts);
            let ghost p0 = pts@;
            assert(tips(r0[i as int].pts@));
            pts.push(pos);
            let ghost p1 = pts@;
            assert forall|j: int| 0 <= j < p1.len() implies symlib::tip_pt(#[trigger] p1[j]) by {
                if j < p0.len() {
                    assert(symlib::tip_pt(p0[j]));
                }
            }
            rails.set(i, Rail { d, net, pts });
            proof {
                assert(rails_v(rails@) =~= rv.update(i as int, (d, net@, p1)));
                assert forall|j: int| 0 <= j < rails@.len() implies geom::is_dir(
                    (#[trigger] rails@[j]).d,
                ) && rails@[j].net@.len() <= TEXT_MAX && tips(rails@[j].pts@) && rails@[j].pts@.len()
                    >= 1 by {
                    if j != i {
                        assert(rails@[j] == r0[j]);
                    }
                }
            }
            return ;
        }
        i += 1;
    }
    let mut pts: Vec<Pt> = Vec::new();
    pts.push(pos);
    assert(pts@ =~= seq![pos]);
    rails.push(Rail { d, net, pts });
    proof {
        assert(rails_v(rails@) =~= rv.push((d, net@, seq![pos])));
        assert forall|j: int| 0 <= j < rails@.len() implies geom::is_dir((#[trigger] rails@[j]).d)
            && rails@[j].net@.len() <= TEXT_MAX && tips(rails@[j].pts@) && rails@[j].pts@.len() >= 1 by {
            if j < r0.len() {
                assert(rails@[j] == r0[j]);
            }
        }
    }
}

fn draw_rails(g: &mut Geo, s: &mut Session, rails: &Vec<Rail>, pins: usize, occ: &Vec<(i64, i64)>)
    requires
        old(s).wf(),
        boxes_ok(old(g)@),
        rails_ok(rails@),
    ensures
        final(s).wf(),
        final(s).extra == old(s).extra,
        boxes_ok(final(g)@),
        ink_of(*final(g), *final(s)) == rails_drawn(
            ink_of(*old(g), *old(s)),
            rails_v(rails@),
            pins as int,
            occ@,
            rails@.len() as int,
        ),
{
    let ghost ink = ink_of(*g, *s);
    let ghost extra = s.extra;
    let ghost rv = rails_v(rails@);
    let mut i: usize = 0;
    while i < rails.len()
        invariant
            i <= rails@.len(),
            s.wf(),
            s.extra == extra,
            boxes_ok(g@),
            rails_ok(rails@),
            rv == rails_v(rails@),
            ink_of(*g, *s) == rails_drawn(ink, rv, pins as int, occ@, i as int),
        decreases rails@.len() - i,
    {
        let r = &rails[i];
        assert(rv[i as int] == (r.d, r.net@, r.pts@));
        let sorted = sort_points(&r.pts);
        let runs = split_runs(&sorted);
        assert(geo::paths_v(runs@).len() == runs@.len());
        draw_runs(g, s, &runs, r.d, r.net.as_str(), pins, occ);
        i += 1;
    }
}

proof fn lemma_chosen_below(m: Seq<(Seq<char>, usize)>, pins: Seq<Pin>, key: Seq<char>, at: usize, n: int)
    requires
        forall|i: int| 0 <= i < m.len() ==> (#[trigger] m[i]).1 <= at,
        0 <= n <= pins.len(),
    ensures
        forall|i: int|
            0 <= i < choose_pins(m, pins, key, at, n).len() ==> (#[trigger] choose_pins(
                m,
                pins,
                key,
                at,
                n,
            )[i]).1 <= at,
    decreases n,
{
    if n > 0 {
        lemma_chosen_below(m, pins, key, at, n - 1);
        let b = choose_pins(m, pins, key, at, n - 1);
        order_map::lemma_seek(b, pins[n - 1].number@, 0);
    }
}

spec fn below(m: Seq<(Seq<char>, usize)>, n: int) -> bool {
    forall|i: int| 0 <= i < m.len() ==> (#[trigger] m[i]).1 < n
}

fn choices(pins: &Vec<Pin>, wishes: &Vec<(String, PinSpec)>) -> (m: OrderMap<usize>)
    ensures
        m.wf(),
        order_map::plain_pairs(m) == chosen(pins@, wishes_v(wishes@), wishes@.len() as int),
        below(order_map::plain_pairs(m), wishes@.len() as int),
{
    let mut m: OrderMap<usize> = OrderMap::new();
    let mut i: usize = 0;
    assert(order_map::plain_pairs(m) =~= Seq::empty());
    while i < wishes.len()
        invariant
            i <= wishes@.len(),
            m.wf(),
            order_map::plain_pairs(m) == chosen(pins@, wishes_v(wishes@), i as int),
            below(order_map::plain_pairs(m), i as int),
        decreases wishes@.len() - i,
    {
        let ghost m0 = order_map::plain_pairs(m);
        let key = &wishes[i].0;
        let by_number = is_pin_number(pins, key);
        let mut k: usize = 0;
        while k < pins.len()
            invariant
                k <= pins@.len(),
                m.wf(),
                by_number == engine::has_number(pins@, key@),
                order_map::plain_pairs(m) == choose_pins(m0, pins@, key@, i, k as int),
            decreases pins@.len() - k,
        {
            let hit = if by_number {
                pins[k].number == *key
            } else {
                pins[k].name == *key
            };
            if hit {
                let ghost before = m;
                m.insert(pins[k].number.as_str(), i);
                proof {
                    order_map::lemma_plain_put(before, m, pins@[k as int].number@, i);
                }
            }
            k += 1;
        }
        proof {
            assert forall|j: int| 0 <= j < m0.len() implies (#[trigger] m0[j]).1 <= i by {
            }
            lemma_chosen_below(m0, pins@, key@, i, pins@.len() as int);
        }
        i += 1;
    }
    m
}

/// The wish noted for a pin.
fn noted<'a>(
    m: &OrderMap<usize>,
    wishes: &'a Vec<(String, PinSpec)>,
    default: &'a PinSpec,
    p: &Pin,
    Ghost(c): Ghost<PinsCtx>,
) -> (r: &'a PinSpec)
    requires
        m.wf(),
        order_map::plain_pairs(*m) == chosen(c.pins, wishes_v(wishes@), wishes@.len() as int),
        below(order_map::plain_pairs(*m), wishes@.len() as int),
        c.wishes == wishes_v(wishes@),
        c.default == default@,
        spec_ok(default@),
        specs_ok(wishes_v(wishes@)),
    ensures
        r@ == c.noted(*p),
        spec_ok(r@),
{
    proof {
        order_map::lemma_plain_found(*m, p.number@);
        order_map::lemma_first_of(m.names(), p.number@);
    }
    match m.get(p.number.as_str()) {
        Some(i) => {
            let ghost at = m.at(p.number@);
            assert(order_map::plain_pairs(*m)[at].1 == *i);
            let k: usize = *i;
            assert(wishes_v(wishes@)[k as int].1 == wishes@[k as int].1@);
            &wishes[k].1
        },
        None => default,
    }
}

fn stray(pins: &Vec<Pin>, wishes: &Vec<(String, PinSpec)>) -> (r: usize)
    ensures
        r == first_stray(pins@, wishes_v(wishes@), 0),
        r <= wishes@.len(),
{
    let mut i: usize = 0;
    while i < wishes.len()
        invariant
            i <= wishes@.len(),
            first_stray(pins@, wishes_v(wishes@), 0) == first_stray(pins@, wishes_v(wishes@), i as int),
        decreases wishes@.len() - i,
    {
        if !is_pin_number(pins, &wishes[i].0) && !is_pin_name(pins, &wishes[i].0) {
            return i;
        }
        i += 1;
    }
    i
}

fn stray_error(lib: &str, key: &str, pins: &Vec<Pin>) -> (r: String)
    ensures
        r@ == stray_message(lib@, key@, pins@),
{
    let mut rows: Vec<String> = Vec::new();
    let ghost want = Seq::new(pins@.len(), |i: int| pins@[i].number@ + "="@ + pins@[i].name@);
    let mut i: usize = 0;
    while i < pins.len()
        invariant
            i <= pins@.len(),
            rows@.len() == i,
            forall|j: int|
                0 <= j < i ==> (#[trigger] rows@[j])@ == pins@[j].number@ + "="@ + pins@[j].name@,
        decreases pins@.len() - i,
    {
        rows.push(concat3(pins[i].number.as_str(), "=", pins[i].name.as_str()));
        i += 1;
    }
    assert(text::views(rows@) =~= want);
    let all = chars_of(join(&rows, ", ").as_str());
    let mut head: Vec<char> = Vec::new();
    i = 0;
    while i < all.len() && i < 500
        invariant
            i <= all@.len(),
            i <= 500,
            head@ == all@.take(i as int),
        decreases all@.len() - i,
    {
        assert(all@.take(i + 1) =~= all@.take(i as int).push(all@[i as int]));
        head.push(all[i]);
        i += 1;
    }
    let mut r = concat3(lib, ": no pin '", key);
    r.append("' (pins: ");
    r.append(of_chars(&head).as_str());
    r.append(")");
    r
}

fn spots_taken(
    pins: &Vec<Pin>,
    m: &OrderMap<usize>,
    wishes: &Vec<(String, PinSpec)>,
    default: &PinSpec,
    at: Pt,
    rot: i32,
    flip: Mirror,
    Ghost(c): Ghost<PinsCtx>,
) -> (r: Vec<(i64, i64)>)
    requires
        m.wf(),
        order_map::plain_pairs(*m) == chosen(c.pins, wishes_v(wishes@), wishes@.len() as int),
        below(order_map::plain_pairs(*m), wishes@.len() as int),
        c.wishes == wishes_v(wishes@),
        c.default == default@,
        c.pins == pins@,
        c.at == at,
        c.rot == rot,
        c.flip == flip,
        symlib::near_pt(at),
        forall|i: int| 0 <= i < pins@.len() ==> symlib::pin_ok(#[trigger] pins@[i]),
        spec_ok(default@),
        specs_ok(wishes_v(wishes@)),
    ensures
        r@ == taken_spots(c, pins@.len() as int),
{
    let mut r: Vec<(i64, i64)> = Vec::new();
    let mut k: usize = 0;
    while k < pins.len()
        invariant
            k <= pins@.len(),
            m.wf(),
            order_map::plain_pairs(*m) == chosen(c.pins, wishes_v(wishes@), wishes@.len() as int),
            below(order_map::plain_pairs(*m), wishes@.len() as int),
            c.wishes == wishes_v(wishes@),
            c.default == default@,
            c.pins == pins@,
            c.at == at,
            c.rot == rot,
            c.flip == flip,
            symlib::near_pt(at),
            forall|i: int| 0 <= i < pins@.len() ==> symlib::pin_ok(#[trigger] pins@[i]),
            spec_ok(default@),
            specs_ok(wishes_v(wishes@)),
            r@ == taken_spots(c, k as int),
        decreases pins@.len() - k,
    {
        let spec = noted(m, wishes, default, &pins[k], Ghost(c));
        let room = match spec {
            PinSpec::Null => true,
            PinSpec::Word(w) => same(w.as_str(), "float") || same(w.as_str(), "nc") || same(
                w.as_str(),
                "wired",
            ),
            PinSpec::Detail(d) => d.nc,
        };
        if !room {
            assert(symlib::pin_ok(pins@[k as int]));
            let p = pin_point(&pins[k], at, rot, flip);
            r.push(spot_of(p.x, p.y));
        }
        k += 1;
    }
    r
}

fn push_text_spots(
    pins: &Vec<Pin>,
    at: Pt,
    rot: i32,
    flip: Mirror,
    dy: i64,
    out: &mut Vec<(i64, i64)>,
    Ghost(c): Ghost<PinsCtx>,
)
    requires
        c.pins == pins@,
        c.at == at,
        c.rot == rot,
        c.flip == flip,
        dy == 1 || dy == -1,
        symlib::near_pt(at),
        forall|i: int| 0 <= i < pins@.len() ==> symlib::pin_ok(#[trigger] pins@[i]),
    ensures
        final(out)@ == old(out)@ + text_spots(c, dy as int, pins@.len() as int),
{
    let ghost o0 = out@;
    let mut k: usize = 0;
    assert(out@ =~= o0 + text_spots(c, dy as int, 0));
    while k < pins.len()
        invariant
            k <= pins@.len(),
            c.pins == pins@,
            c.at == at,
            c.rot == rot,
            c.flip == flip,
            dy == 1 || dy == -1,
            symlib::near_pt(at),
            forall|i: int| 0 <= i < pins@.len() ==> symlib::pin_ok(#[trigger] pins@[i]),
            out@ == o0 + text_spots(c, dy as int, k as int),
        decreases pins@.len() - k,
    {
        assert(symlib::pin_ok(pins@[k as int]));
        let p = pin_point(&pins[k], at, rot, flip);
        out.push(spot_of(p.x, p.y + dy * 254_000));
        out.push(spot_of(p.x, p.y + dy * 508_000));
        assert(out@ =~= o0 + text_spots(c, dy as int, k + 1));
        k += 1;
    }
}

/// What connecting the pins of an instance draws, and why it stopped, where it did.
pub open spec fn connect_spec(
    c: PinsCtx,
    all: Seq<Pin>,
    lib: Seq<char>,
    connector: bool,
    ink: InkV,
) -> (InkV, Option<Seq<char>>) {
    let n = c.pins.len() as int;
    let k = first_stray(c.pins, c.wishes, 0);
    let p = pins_drawn(c, ink.g, n);
    if k < c.wishes.len() {
        (ink, Some(stray_message(lib, c.wishes[k].0, c.pins)))
    } else {
        match p.bad {
            Some(b) => (
                InkV { g: p.g, ..ink },
                Some(bad_message(lib, c.pins[b.0].number@, b.1)),
            ),
            None => (
                rails_drawn(
                    InkV { g: p.g, ..ink },
                    p.rails,
                    n,
                    taken(c, all, connector),
                    p.rails.len() as int,
                ),
                None,
            ),
        }
    }
}

/// The message of a failure.
pub open spec fn failure(r: Result<(), LayoutError>) -> Option<Seq<char>> {
    match r {
        Ok(_) => None,
        Err(e) => Some(e.0@),
    }
}

/// Connects the pins of one instance as wished: a label on a stub, a power symbol, a no-connect
/// mark, or nothing. Power pins of one net that leave on one side next to each other share a rail.
/// A wish for a pin that does not exist, and one that names neither net nor rail, is refused; what
/// was drawn before a refused wish stays.
pub fn connect_pins(
    g: &mut Geo,
    s: &mut Session,
    sym: &SymbolInfo,
    at: Pt,
    rot: i32,
    mirror: &str,
    unit: i32,
    pinmap: &Vec<(String, PinSpec)>,
    default: &PinSpec,
    skip: &Vec<String>,
) -> (r: Result<(), LayoutError>)
    requires
        old(s).wf(),
        boxes_ok(old(g)@),
        sym.wf(),
        symlib::near_pt(at),
        texts_ok(engine::visible(sym.unit_spec(unit as int).pins@)),
        spec_ok(default@),
        specs_ok(wishes_v(pinmap@)),
    ensures
        final(s).wf(),
        final(s).extra == old(s).extra,
        boxes_ok(final(g)@),
        ({
            let all = sym.unit_spec(unit as int).pins@;
            let c = PinsCtx {
                pins: engine::visible(all),
                wishes: wishes_v(pinmap@),
                default: default@,
                skip: text::views(skip@),
                at,
                rot: rot as int,
                flip: symlib::mirror_spec(mirror@),
            };
            (
                InkV { g: final(g)@, flags: order_map::plain_pairs(final(s).flags) },
                failure(r),
            ) == connect_spec(
                c,
                all,
                sym.lib_id@,
                sym.ref_prefix@ == "J"@,
                InkV { g: old(g)@, flags: order_map::plain_pairs(old(s).flags) },
            )
        }),
{
    let flip = mirror_of(mirror);
    let all = sym.pins_for_unit(unit);
    let pins = visible_pins(all);
    let ghost c = PinsCtx {
        pins: engine::visible(sym.unit_spec(unit as int).pins@),
        wishes: wishes_v(pinmap@),
        default: default@,
        skip: text::views(skip@),
        at,
        rot: rot as int,
        flip: symlib::mirror_spec(mirror@),
    };
    let ghost g0 = g@;
    let k: usize = stray(&pins, pinmap);
    if k < pinmap.len() {
        return Err(LayoutError(stray_error(sym.lib_id.as_str(), pinmap[k].0.as_str(), &pins)));
    }
    let m = choices(&pins, pinmap);
    let mut rails: Vec<Rail> = Vec::new();
    let mut i: usize = 0;
    assert(rails_v(rails@) =~= Seq::empty());
    while i < pins.len()
        invariant
            i <= pins@.len(),
            c.pins == pins@,
            c.wishes == wishes_v(pinmap@),
            c.default == default@,
            c.skip == text::views(skip@),
            c.at == at,
            c.rot == rot,
            c.flip == flip,
            s.wf(),
            *s == *old(s),
            boxes_ok(g@),
            symlib::near_pt(at),
            forall|i: int| 0 <= i < pins@.len() ==> symlib::pin_ok(#[trigger] pins@[i]),
            texts_ok(pins@),
            m.wf(),
            order_map::plain_pairs(m) == chosen(c.pins, wishes_v(pinmap@), pinmap@.len() as int),
            below(order_map::plain_pairs(m), pinmap@.len() as int),
            spec_ok(default@),
            specs_ok(wishes_v(pinmap@)),
            rails_ok(rails@),
            pins_drawn(c, g0, i as int).bad is None,
            pins_drawn(c, g0, i as int).g == g@,
            pins_drawn(c, g0, i as int).rails == rails_v(rails@),
            g0 == old(g)@,
            first_stray(c.pins, wishes_v(pinmap@), 0) == pinmap@.len(),
            c == (PinsCtx {
                pins: engine::visible(sym.unit_spec(unit as int).pins@),
                wishes: wishes_v(pinmap@),
                default: default@,
                skip: text::views(skip@),
                at,
                rot: rot as int,
                flip: symlib::mirror_spec(mirror@),
            }),
        decreases pins@.len() - i,
    {
        let p = &pins[i];
        assert(symlib::pin_ok(pins@[i as int]));
        assert(pins@[i as int].name@.len() <= TEXT_MAX);
        if !listed(skip, p.number.as_str()) {
            let spec = noted(&m, pinmap, default, p, Ghost(c));
            let pos = pin_point(p, at, rot, flip);
            let d = turned_dir(p.angle, rot, flip);
            let w = wish(spec, default, p);
            match w {
                Wish::Open => {},
                Wish::Cross => {
                    g.add_nc(pos);
                },
                Wish::Rail(net) => {
                    add_to_rail(&mut rails, d, net, pos);
                },
                Wish::Label { net, stub, kind, shape } => {
                    let end = outward(pos, d, stub);
                    g.add_line(pos, end);
                    put_label(g, net.as_str(), end, rot_label(d), kind.as_str(), shape.as_str());
                },
                Wish::Bad(shown) => {
                    let mut e = concat3(sym.lib_id.as_str(), " pin ", p.number.as_str());
                    e.append(": bad spec ");
                    e.append(shown.as_str());
                    proof {
                        lemma_bad_stays(c, g0, i + 1, pins@.len() as int);
                    }
                    return Err(LayoutError(e));
                },
            }
        }
        i += 1;
    }
    let n: usize = pins.len();
    let mut occ = spots_taken(&pins, &m, pinmap, default, at, rot, flip, Ghost(c));
    if same(sym.ref_prefix.as_str(), "J") {
        let lateral = points_to(&pins, rot, flip, (1, 0)) || points_to(&pins, rot, flip, (-1, 0));
        if !lateral {
            match text_slot(all, rot, flip) {
                TextSlot::Above => {
                    push_text_spots(&pins, at, rot, flip, -1, &mut occ, Ghost(c));
                },
                TextSlot::Below => {
                    push_text_spots(&pins, at, rot, flip, 1, &mut occ, Ghost(c));
                },
                _ => {},
            }
        }
    }
    assert(rails_v(rails@).len() == rails@.len());
    draw_rails(g, s, &rails, n, &occ);
    Ok(())
}

proof fn lemma_bad_stays(c: PinsCtx, g: GeoV, i: int, n: int)
    requires
        0 <= i <= n,
        pins_drawn(c, g, i).bad is Some,
    ensures
        pins_drawn(c, g, n) == pins_drawn(c, g, i),
    decreases n - i,
{
    if i < n {
        lemma_bad_stays(c, g, i, n - 1);
    }
}

} // verus!
