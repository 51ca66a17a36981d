//! Wiring of one functional group: routing, net labels and power symbols of its placed parts.
use crate::engine;
use crate::engine::PartInst;
use crate::geo;
use crate::geo::{dup_path, rot_label, Geo, GeoV};
use crate::geom;
use crate::geom::{
    abs_i, manhattan_dist, max_i, min_i, on_segment, overlap, round_quotient, seg_hits_box,
    segs_cross, BBox, Dir, Pt, GRID,
};
use crate::order;
use crate::order::order_by_key;
use crate::order_map;
use crate::order_map::{push_into, OrderMap};
use crate::router;
use crate::router::{cell_of, dir_code, Arena};
use crate::symlib;
use crate::symlib::TEXT_MAX;
use vstd::prelude::*;

verus! {

/// Part id and pin number.
pub type PinKey = (Seq<char>, Seq<char>);

/// One endpoint of a net: the part, its pin, where it connects and which way it points.
#[derive(Clone, Copy, Debug)]
pub struct End {
    pub p: usize,
    pub pin: usize,
    pub pos: Pt,
    pub d: Dir,
}

/// The parts of a group and the nets between them.
#[derive(Debug)]
pub struct Frame {
    pub parts: Vec<PartInst>,
    /// Pins of each net in the whole design.
    pub all_nets: Vec<(String, u64)>,
    /// Part id and pin number of pins known to need a net label.
    pub label_pins: Vec<(String, String)>,
    /// Extra rail names.
    pub power: Vec<String>,
    /// Nets that get a PWR_FLAG in this group.
    pub flags: Vec<String>,
    /// Part and pin positions of each net.
    pub nets: OrderMap<Vec<(usize, usize)>>,
    pub signal_nets: OrderMap<Vec<(usize, usize)>>,
    /// Power nets other than grounds: wired locally where that is short.
    pub supply_nets: OrderMap<Vec<(usize, usize)>>,
    pub pure_power_group: bool,
    /// Connections longer than this become labels.
    pub max_wire: i64,
    /// Draw long connections whose path is straight or has a single bend.
    pub long_simple: bool,
}

/// What has been drawn so far.
#[derive(Debug)]
pub struct Drawn {
    pub wires: Vec<Vec<Pt>>,
    /// Positions in `wires` of each net's routed wires.
    pub net_wires: OrderMap<Vec<usize>>,
    pub labelled_pins: Vec<(String, String)>,
    pub wired_pins: Vec<(String, String)>,
    pub power_symbol_pins: Vec<(String, String)>,
    pub symbol_on_wire: Vec<(String, Pt)>,
    /// Zones that wires of other nets avoid.
    pub reserved: Vec<(BBox, Option<String>)>,
    pub geo: Geo,
}

#[verifier::ext_equal]
pub struct DrawnV {
    pub wires: Seq<Seq<Pt>>,
    pub net_wires: Seq<(Seq<char>, Seq<usize>)>,
    pub labelled: Set<PinKey>,
    pub wired: Set<PinKey>,
    pub power_pins: Set<PinKey>,
    pub on_wire: Seq<(Seq<char>, Pt)>,
    pub reserved: Seq<(BBox, Option<Seq<char>>)>,
    pub geo: GeoV,
}

/// The members of a list of pin keys.
pub open spec fn keys_v(v: Seq<(String, String)>) -> Set<PinKey> {
    Set::new(|k: PinKey| exists|i: int| 0 <= i < v.len() && ((#[trigger] v[i]).0@, v[i].1@) == k)
}

pub open spec fn zones_v(v: Seq<(BBox, Option<String>)>) -> Seq<(BBox, Option<Seq<char>>)> {
    Seq::new(
        v.len(),
        |i: int|
            (
                v[i].0,
                match v[i].1 {
                    Some(s) => Some(s@),
                    None => None,
                },
            ),
    )
}

pub open spec fn marks_v(v: Seq<(String, Pt)>) -> Seq<(Seq<char>, Pt)> {
    Seq::new(v.len(), |i: int| (v[i].0@, v[i].1))
}

impl View for Drawn {
    type V = DrawnV;

    open spec fn view(&self) -> DrawnV {
        DrawnV {
            wires: geo::paths_v(self.wires@),
            net_wires: order_map::list_pairs(self.net_wires),
            labelled: keys_v(self.labelled_pins@),
            wired: keys_v(self.wired_pins@),
            power_pins: keys_v(self.power_symbol_pins@),
            on_wire: marks_v(self.symbol_on_wire@),
            reserved: zones_v(self.reserved@),
            geo: self.geo@,
        }
    }
}

impl DrawnV {
    /// Nothing drawn.
    pub open spec fn empty() -> DrawnV {
        DrawnV {
            wires: Seq::empty(),
            net_wires: Seq::empty(),
            labelled: Set::empty(),
            wired: Set::empty(),
            power_pins: Set::empty(),
            on_wire: Seq::empty(),
            reserved: Seq::empty(),
            geo: GeoV::empty(),
        }
    }

    /// Wires lie where wires can be, the wire lists name existing wires, boxes are in range.
    pub open spec fn ok(&self) -> bool {
        &&& forall|i: int| 0 <= i < self.wires.len() ==> router::wire_path(#[trigger] self.wires[i])
        &&& forall|i: int, j: int|
            0 <= i < self.net_wires.len() && 0 <= j < self.net_wires[i].1.len()
                ==> #[trigger] self.net_wires[i].1[j] < self.wires.len()
        &&& forall|i: int|
            0 <= i < self.reserved.len() ==> geom::box_ok((#[trigger] self.reserved[i]).0)
        &&& forall|i: int|
            0 <= i < self.geo.boxes.len() ==> geom::box_ok(#[trigger] self.geo.boxes[i])
        &&& forall|i: int|
            0 <= i < self.on_wire.len() ==> symlib::mark_pt((#[trigger] self.on_wire[i]).1)
                && self.on_wire[i].0.len() <= TEXT_MAX
    }
}

impl Drawn {
    pub open spec fn wf(&self) -> bool {
        self.net_wires.wf() && self@.ok()
    }
}

pub open spec fn refs_ok(parts: Seq<PartInst>, v: Seq<(usize, usize)>) -> bool {
    forall|i: int|
        0 <= i < v.len() ==> (#[trigger] v[i]).0 < parts.len() && v[i].1 < parts[v[i].0 as int].pins@.len()
}

pub open spec fn nets_ok(parts: Seq<PartInst>, m: OrderMap<Vec<(usize, usize)>>) -> bool {
    &&& m.wf()
    &&& forall|i: int|
        0 <= i < m.vals@.len() ==> refs_ok(parts, (#[trigger] m.vals@[i])@) && m.vals@[i]@.len()
            <= 0x100_0000
    &&& forall|i: int| 0 <= i < m.names().len() ==> (#[trigger] m.names()[i]).len() <= TEXT_MAX
}

pub open spec fn parts_ok(parts: Seq<PartInst>) -> bool {
    forall|i: int| 0 <= i < parts.len() ==> (#[trigger] parts[i]).wf()
}

impl Frame {
    pub open spec fn wf(&self) -> bool {
        &&& parts_ok(self.parts@)
        &&& self.parts@.len() <= 0x10_0000
        &&& nets_ok(self.parts@, self.nets)
        &&& nets_ok(self.parts@, self.signal_nets)
        &&& nets_ok(self.parts@, self.supply_nets)
        &&& 0 <= self.max_wire <= symlib::NEAR_MAX
    }

    /// Part id and pin number of an endpoint.
    pub open spec fn key_spec(&self, e: End) -> PinKey {
        (self.parts@[e.p as int].id@, self.parts@[e.p as int].pins@[e.pin as int].number@)
    }

    /// An endpoint as its part is placed.
    pub open spec fn end_spec(&self, r: (usize, usize)) -> End {
        let p = self.parts@[r.0 as int];
        End {
            p: r.0,
            pin: r.1,
            pos: p.pos_spec(p.pins@[r.1 as int]),
            d: p.dir_spec(p.pins@[r.1 as int]),
        }
    }

    pub open spec fn extent_of(&self, i: int) -> BBox {
        let p = self.parts@[i];
        engine::extent_spec(p, p.at, p.rot as int, p.flip(), true)
    }

    pub open spec fn boxes_of(&self, i: int) -> Seq<BBox> {
        let p = self.parts@[i];
        engine::part_boxes(p, p.at, p.rot as int, p.flip(), false)
    }
}

pub open spec fn end_ok(f: Frame, e: End) -> bool {
    &&& e.p < f.parts@.len()
    &&& e.pin < f.parts@[e.p as int].pins@.len()
    &&& symlib::tip_pt(e.pos)
    &&& geom::is_dir(e.d)
}

pub open spec fn ends_ok(f: Frame, v: Seq<End>) -> bool {
    forall|i: int| 0 <= i < v.len() ==> end_ok(f, #[trigger] v[i])
}

/// Whether a list of pin keys holds one.
pub fn has_key(v: &Vec<(String, String)>, id: &str, number: &str) -> (r: bool)
    ensures
        r == keys_v(v@).contains((id@, number@)),
{
    let a = id.to_owned();
    let b = number.to_owned();
    let mut i: usize = 0;
    while i < v.len()
        invariant
            i <= v@.len(),
            a@ == id@,
            b@ == number@,
            forall|j: int|
                0 <= j < i ==> ((#[trigger] v@[j]).0@, v@[j].1@) != (id@, number@),
        decreases v@.len() - i,
    {
        if v[i].0 == a && v[i].1 == b {
            assert((v@[i as int].0@, v@[i as int].1@) == (id@, number@));
            return true;
        }
        i += 1;
    }
    false
}

/// Adds a pin key to a list.
pub fn add_key(v: &mut Vec<(String, String)>, id: &str, number: &str)
    ensures
        keys_v(final(v)@) == keys_v(old(v)@).insert((id@, number@)),
{
    let ghost v0 = v@;
    v.push((id.to_owned(), number.to_owned()));
    proof {
        let k0 = (id@, number@);
        assert forall|k: PinKey| keys_v(v@).contains(k) == keys_v(v0).insert(k0).contains(k) by {
            if keys_v(v0).contains(k) {
                let i = choose|i: int|
                    0 <= i < v0.len() && ((#[trigger] v0[i]).0@, v0[i].1@) == k;
                assert((v@[i].0@, v@[i].1@) == k);
            }
            if k == k0 {
                let n = v0.len() as int;
                assert((v@[n].0@, v@[n].1@) == k);
            }
            if keys_v(v@).contains(k) {
                let i = choose|i: int| 0 <= i < v@.len() && ((#[trigger] v@[i]).0@, v@[i].1@) == k;
                if i < v0.len() {
                    assert((v0[i].0@, v0[i].1@) == k);
                }
            }
        }
        assert(keys_v(v@) =~= keys_v(v0).insert(k0));
    }
}

impl Frame {
    pub(crate) fn end_at(&self, r: (usize, usize)) -> (e: End)
        requires
            self.wf(),
            r.0 < self.parts@.len(),
            r.1 < self.parts@[r.0 as int].pins@.len(),
        ensures
            e == self.end_spec(r),
            end_ok(*self, e),
    {
        let p = &self.parts[r.0];
        let pin = &p.pins[r.1];
        assert(self.parts@[r.0 as int].wf());
        assert(symlib::pin_ok(self.parts@[r.0 as int].pins@[r.1 as int]));
        End { p: r.0, pin: r.1, pos: p.pin_pos(pin), d: p.pin_dir(pin) }
    }

    pub(crate) fn is_marked(&self, v: &Vec<(String, String)>, e: &End) -> (r: bool)
        requires
            end_ok(*self, *e),
        ensures
            r == keys_v(v@).contains(self.key_spec(*e)),
    {
        has_key(v, self.parts[e.p].id.as_str(), self.parts[e.p].pins[e.pin].number.as_str())
    }

    fn mark(&self, v: &mut Vec<(String, String)>, e: &End)
        requires
            end_ok(*self, *e),
        ensures
            keys_v(final(v)@) == keys_v(old(v)@).insert(self.key_spec(*e)),
    {
        add_key(v, self.parts[e.p].id.as_str(), self.parts[e.p].pins[e.pin].number.as_str());
    }
}

/// Some segment of the wire runs through the box shrunk by `eps`.
pub open spec fn hit_count(w: Seq<Pt>, b: BBox, eps: int, n: int) -> int
    decreases n,
{
    if n <= 0 {
        0
    } else {
        hit_count(w, b, eps, n - 1) + (if geom::hits(w[n - 1], w[n], b, eps) { 1int } else { 0 })
    }
}

pub open spec fn hits_in(ws: Seq<Seq<Pt>>, b: BBox, eps: int, n: int) -> int
    decreases n,
{
    if n <= 0 {
        0
    } else {
        hits_in(ws, b, eps, n - 1) + hit_count(ws[n - 1], b, eps, ws[n - 1].len() - 1)
    }
}

/// Parts other than `own`, of the first `n`, whose extent overlaps the box.
pub open spec fn crowd(f: Frame, own: int, b: BBox, n: int) -> int
    decreases n,
{
    if n <= 0 {
        0
    } else {
        crowd(f, own, b, n - 1) + (if n - 1 != own && geom::overlap_spec(b, f.extent_of(n - 1), 0) {
            1int
        } else {
            0
        })
    }
}

/// The box of a short label stub at a pin.
pub open spec fn stub_label_box(e: End, n: int) -> BBox {
    let far = geom::step(e.pos, e.d, 381_000);
    let w = geo::letters(n) + 152_400;
    let up = 203_200int;
    let down = 38_100int;
    if e.d == (1i32, 0i32) {
        engine::bx(far.x as int, far.y - up, far.x + w, far.y + down)
    } else if e.d == (-1i32, 0i32) {
        engine::bx(far.x - w, far.y - up, far.x as int, far.y + down)
    } else if e.d == (0i32, -1i32) {
        engine::bx(far.x - up, far.y - w, far.x + down, far.y as int)
    } else {
        engine::bx(far.x - up, far.y as int, far.x + down, far.y + w)
    }
}

/// How crowded a label at a pin would be: ten for each part it overlaps, three for each segment.
pub open spec fn crowding_spec(f: Frame, ws: Seq<Seq<Pt>>, e: End, n: int) -> int {
    let b = stub_label_box(e, n);
    10 * crowd(f, e.p as int, b, f.parts@.len() as int) + 3 * hits_in(ws, b, 12_700, ws.len() as int)
}

/// The point `k` units outward.
pub(crate) fn outward(p: Pt, d: Dir, k: i64) -> (r: Pt)
    requires
        symlib::wide_pt(p),
        geom::is_dir(d),
        -0x1000_0000 <= k <= 0x1000_0000,
    ensures
        r == geom::step(p, d, k as int),
        r.x == p.x + d.0 * k,
        r.y == p.y + d.1 * k,
        -0x1000_0000 <= r.x - p.x <= 0x1000_0000,
        -0x1000_0000 <= r.y - p.y <= 0x1000_0000,
{
    let a: i64 = d.0 as i64;
    let b: i64 = d.1 as i64;
    proof {
        assert(a * k == (if a == 1 { k as int } else if a == -1 { -k } else { 0 })) by (nonlinear_arith)
            requires
                a == 0 || a == 1 || a == -1,
        ;
        assert(b * k == (if b == 1 { k as int } else if b == -1 { -k } else { 0 })) by (nonlinear_arith)
            requires
                b == 0 || b == 1 || b == -1,
        ;
    }
    Pt { x: p.x + a * k, y: p.y + b * k }
}

fn count_hits(ws: &Vec<Vec<Pt>>, b: &BBox, eps: i64) -> (r: u128)
    requires
        geom::box_ok(*b),
        geom::in_range(eps as int),
    ensures
        r == hits_in(geo::paths_v(ws@), *b, eps as int, ws@.len() as int),
        r <= ws@.len() * 0x1_0000_0000_0000_0000,
{
    let ghost all = geo::paths_v(ws@);
    let mut r: u128 = 0;
    let mut i: usize = 0;
    while i < ws.len()
        invariant
            i <= ws@.len(),
            all == geo::paths_v(ws@),
            geom::box_ok(*b),
            geom::in_range(eps as int),
            r == hits_in(all, *b, eps as int, i as int),
            r <= i * 0x1_0000_0000_0000_0000,
        decreases ws@.len() - i,
    {
        let w = &ws[i];
        let mut c: u128 = 0;
        let mut k: usize = 1;
        while k < w.len()
            invariant
                1 <= k,
                k <= w@.len() || k == 1,
                geom::box_ok(*b),
                geom::in_range(eps as int),
                c == hit_count(w@, *b, eps as int, k - 1),
                c <= k,
            decreases w@.len() - k,
        {
            if seg_hits_box(w[k - 1], w[k], b, eps) {
                c += 1;
            }
            k += 1;
        }
        assert(c == hit_count(w@, *b, eps as int, w@.len() - 1));
        r = r + c;
        i += 1;
    }
    r
}

impl Frame {
    /// Overlapped parts and hit segments of a label at a pin.
    fn crowding(&self, st: &Drawn, e: &End, net: &str) -> (r: (u64, u128))
        requires
            self.wf(),
            st.wf(),
            end_ok(*self, *e),
            net@.len() <= TEXT_MAX,
        ensures
            10 * r.0 + 3 * r.1 == crowding_spec(*self, st@.wires, *e, net@.len() as int),
            r.0 <= 0x10_0000,
    {
        let far: Pt = outward(e.pos, e.d, 381_000);
        let n: i64 = net.unicode_len() as i64;
        let w: i64 = 120_650 * n + 152_400;
        let up: i64 = 203_200;
        let down: i64 = 38_100;
        let b = if e.d.0 == 1 && e.d.1 == 0 {
            BBox { x0: far.x, y0: far.y - up, x1: far.x + w, y1: far.y + down }
        } else if e.d.0 == -1 && e.d.1 == 0 {
            BBox { x0: far.x - w, y0: far.y - up, x1: far.x, y1: far.y + down }
        } else if e.d.0 == 0 && e.d.1 == -1 {
            BBox { x0: far.x - up, y0: far.y - w, x1: far.x + down, y1: far.y }
        } else {
            BBox { x0: far.x - up, y0: far.y, x1: far.x + down, y1: far.y + w }
        };
        assert(b == stub_label_box(*e, net@.len() as int));
        let mut c: u64 = 0;
        let mut i: usize = 0;
        while i < self.parts.len()
            invariant
                i <= self.parts@.len(),
                self.wf(),
                geom::box_ok(b),
                c == crowd(*self, e.p as int, b, i as int),
                c <= i,
            decreases self.parts@.len() - i,
        {
            assert(self.parts@[i as int].wf());
            if i != e.p {
                let x = self.parts[i].extent();
                if overlap(&b, &x, 0) {
                    c += 1;
                }
            }
            i += 1;
        }
        (c, count_hits(&st.wires, &b, 12_700))
    }
}

/// Whether ten times the first plus three times the second number is smaller.
fn less_crowded(a: (u64, u128), b: (u64, u128)) -> (r: bool)
    requires
        a.0 <= 0x10_0000,
        b.0 <= 0x10_0000,
    ensures
        r == (10 * a.0 + 3 * a.1 < 10 * b.0 + 3 * b.1),
{
    let x: i64 = 10 * (a.0 as i64) - 10 * (b.0 as i64);
    if b.1 >= a.1 {
        let d: u128 = b.1 - a.1;
        if d > 0x1000_0000 {
            true
        } else {
            x < 3 * (d as i64)
        }
    } else {
        let d: u128 = a.1 - b.1;
        if d > 0x1000_0000 {
            false
        } else {
            x + 3 * (d as i64) < 0
        }
    }
}

/// Some segment of `path` crosses the segment `a`-`b`.
pub open spec fn path_crosses(path: Seq<Pt>, a: Pt, b: Pt) -> bool {
    exists|k: int| 0 <= k < path.len() - 1 && geom::cross(#[trigger] path[k], path[k + 1], a, b)
}

/// A segment that does not end at `pos` and runs into the label box or across its stub.
pub open spec fn disturbs(a: Pt, b: Pt, pos: Pt, bx: BBox, path: Seq<Pt>) -> bool {
    a != pos && b != pos && (geom::hits(a, b, bx, 12_700) || path_crosses(path, a, b))
}

/// Whether a label box with its stub keeps clear of every part, label and wire.
pub open spec fn spot_free(f: Frame, st: DrawnV, own: int, pos: Pt, bx: BBox, path: Seq<Pt>) -> bool {
    &&& forall|q: int|
        0 <= q < f.parts@.len() && q != own ==> !geom::overlap_spec(
            bx,
            #[trigger] f.extent_of(q),
            0,
        )
    &&& !geom::overlap_spec(
        bx,
        f.extent_of(own),
        if path.len() == 0 { 101_600int } else { -63_500 },
    )
    &&& forall|i: int|
        0 <= i < st.geo.boxes.len() ==> !geom::overlap_spec(bx, #[trigger] st.geo.boxes[i], -25_400)
    &&& forall|w: int, k: int|
        0 <= w < st.wires.len() && 0 <= k < st.wires[w].len() - 1 ==> !disturbs(
            #[trigger] st.wires[w][k],
            st.wires[w][k + 1],
            pos,
            bx,
            path,
        )
}

fn crosses_path(path: &Vec<Pt>, a: Pt, b: Pt) -> (r: bool)
    ensures
        r == path_crosses(path@, a, b),
{
    let mut k: usize = 1;
    while k < path.len()
        invariant
            1 <= k,
            forall|j: int|
                0 <= j < k - 1 && j < path@.len() - 1 ==> !geom::cross(
                    #[trigger] path@[j],
                    path@[j + 1],
                    a,
                    b,
                ),
        decreases path@.len() - k,
    {
        if segs_cross(path[k - 1], path[k], a, b) {
            assert(geom::cross(path@[k - 1], path@[k - 1 + 1], a, b));
            return true;
        }
        k += 1;
    }
    false
}

impl Frame {
    fn label_spot_free(&self, st: &Drawn, own: usize, pos: Pt, b: &BBox, path: &Vec<Pt>) -> (r: bool)
        requires
            self.wf(),
            st.wf(),
            own < self.parts@.len(),
            geom::box_ok(*b),
        ensures
            r == spot_free(*self, st@, own as int, pos, *b, path@),
    {
        let mut i: usize = 0;
        while i < self.parts.len()
            invariant
                i <= self.parts@.len(),
                self.wf(),
                own < self.parts@.len(),
                geom::box_ok(*b),
                forall|q: int|
                    0 <= q < i && q != own ==> !geom::overlap_spec(
                        *b,
                        #[trigger] self.extent_of(q),
                        0,
                    ),
            decreases self.parts@.len() - i,
        {
            assert(self.parts@[i as int].wf());
            if i != own {
                let x = self.parts[i].extent();
                assert(x == self.extent_of(i as int));
                if overlap(b, &x, 0) {
                    return false;
                }
            }
            i += 1;
        }
        assert(self.parts@[own as int].wf());
        let mine = self.parts[own].extent();
        let margin: i64 = if path.len() == 0 { 101_600 } else { -63_500 };
        if overlap(b, &mine, margin) {
            return false;
        }
        let mut g: usize = 0;
        while g < st.geo.boxes.len()
            invariant
                g <= st.geo.boxes@.len(),
                st.wf(),
                geom::box_ok(*b),
                forall|i: int|
                    0 <= i < g ==> !geom::overlap_spec(
                        *b,
                        #[trigger] st@.geo.boxes[i],
                        -25_400,
                    ),
            decreases st.geo.boxes@.len() - g,
        {
            let x = st.geo.boxes[g];
            assert(st@.geo.boxes[g as int] == x);
            if overlap(b, &x, -25_400) {
                return false;
            }
            g += 1;
        }
        let mut w: usize = 0;
        while w < st.wires.len()
            invariant
                w <= st.wires@.len(),
                st.wf(),
                geom::box_ok(*b),
                forall|u: int, k: int|
                    0 <= u < w && 0 <= k < st@.wires[u].len() - 1 ==> !disturbs(
                        #[trigger] st@.wires[u][k],
                        st@.wires[u][k + 1],
                        pos,
                        *b,
                        path@,
                    ),
            decreases st.wires@.len() - w,
        {
            let wire = &st.wires[w];
            assert(st@.wires[w as int] == wire@);
            let mut k: usize = 1;
            while k < wire.len()
                invariant
                    1 <= k,
                    w < st.wires@.len(),
                    st@.wires[w as int] == wire@,
                    geom::box_ok(*b),
                    forall|j: int|
                        0 <= j < k - 1 && j < wire@.len() - 1 ==> !disturbs(
                            #[trigger] wire@[j],
                            wire@[j + 1],
                            pos,
                            *b,
                            path@,
                        ),
                decreases wire@.len() - k,
            {
                let p: Pt = wire[k - 1];
                let q: Pt = wire[k];
                if p != pos && q != pos && (seg_hits_box(p, q, b, 12_700) || crosses_path(path, p, q)) {
                    assert(disturbs(
                        st@.wires[w as int][k - 1],
                        st@.wires[w as int][k - 1 + 1],
                        pos,
                        *b,
                        path@,
                    ));
                    return false;
                }
                k += 1;
            }
            w += 1;
        }
        true
    }
}

/// The first `n` segments of a wire.
pub open spec fn segs_of(w: Seq<Pt>, n: int) -> Seq<(Pt, Pt)>
    decreases n,
{
    if n <= 0 {
        Seq::empty()
    } else {
        segs_of(w, n - 1).push((w[n - 1], w[n]))
    }
}

/// The segments of the first `n` listed wires.
pub open spec fn listed_segs(ws: Seq<Seq<Pt>>, idx: Seq<usize>, n: int) -> Seq<(Pt, Pt)>
    decreases n,
{
    if n <= 0 {
        Seq::empty()
    } else {
        let w = ws[idx[n - 1] as int];
        listed_segs(ws, idx, n - 1) + segs_of(w, w.len() - 1)
    }
}

/// Positions of the routed wires of a net.
pub open spec fn wires_of(st: DrawnV, net: Seq<char>) -> Seq<usize> {
    match order_map::look(st.net_wires, net) {
        Some(l) => l,
        None => Seq::empty(),
    }
}

pub open spec fn segs_of_net(st: DrawnV, net: Seq<char>) -> Seq<(Pt, Pt)> {
    let l = wires_of(st, net);
    listed_segs(st.wires, l, l.len() as int)
}

/// Both ends of each of the first `n` segments.
pub open spec fn ends_of(s: Seq<(Pt, Pt)>, n: int) -> Seq<Pt>
    decreases n,
{
    if n <= 0 {
        Seq::empty()
    } else {
        ends_of(s, n - 1).push(s[n - 1].0).push(s[n - 1].1)
    }
}

/// The first `n` segments, split into those through `p` and the others.
pub open spec fn sweep(p: Pt, left: Seq<(Pt, Pt)>, n: int) -> (Seq<(Pt, Pt)>, Seq<(Pt, Pt)>)
    decreases n,
{
    if n <= 0 {
        (Seq::empty(), Seq::empty())
    } else {
        let r = sweep(p, left, n - 1);
        let s = left[n - 1];
        if geom::on_seg(p, s.0, s.1) {
            (r.0.push(s), r.1)
        } else {
            (r.0, r.1.push(s))
        }
    }
}

/// An end of the segment lies on one of the collected segments.
pub open spec fn touches(got: Seq<(Pt, Pt)>, s: (Pt, Pt)) -> bool {
    exists|i: int|
        0 <= i < got.len() && (geom::on_seg(s.0, (#[trigger] got[i]).0, got[i].1) || geom::on_seg(
            s.1,
            got[i].0,
            got[i].1,
        ))
}

/// The collected segments after each of the first `n` remaining ones has been added where it
/// touches them, and the ones that do not.
pub open spec fn spread(got: Seq<(Pt, Pt)>, left: Seq<(Pt, Pt)>, n: int) -> (
    Seq<(Pt, Pt)>,
    Seq<(Pt, Pt)>,
)
    decreases n,
{
    if n <= 0 {
        (got, Seq::empty())
    } else {
        let r = spread(got, left, n - 1);
        if touches(r.0, left[n - 1]) {
            (r.0.push(left[n - 1]), r.1)
        } else {
            (r.0, r.1.push(left[n - 1]))
        }
    }
}

pub proof fn lemma_sweep(p: Pt, left: Seq<(Pt, Pt)>, n: int)
    requires
        0 <= n <= left.len(),
    ensures
        sweep(p, left, n).0.len() + sweep(p, left, n).1.len() == n,
    decreases n,
{
    if n > 0 {
        lemma_sweep(p, left, n - 1);
    }
}

pub proof fn lemma_spread(got: Seq<(Pt, Pt)>, left: Seq<(Pt, Pt)>, n: int)
    requires
        0 <= n <= left.len(),
    ensures
        spread(got, left, n).0.len() + spread(got, left, n).1.len() == got.len() + n,
        spread(got, left, n).0.len() >= got.len(),
        spread(got, left, n).0.take(got.len() as int) == got,
    decreases n,
{
    if n > 0 {
        lemma_spread(got, left, n - 1);
        let r = spread(got, left, n - 1);
        assert(r.0.push(left[n - 1]).take(got.len() as int) =~= r.0.take(got.len() as int));
    } else {
        assert(got.take(got.len() as int) =~= got);
    }
}

/// Segments reached from the points of `front` through shared points, added to `got`.
pub open spec fn flood(got: Seq<(Pt, Pt)>, front: Seq<Pt>, left: Seq<(Pt, Pt)>) -> Seq<(Pt, Pt)>
    decreases left.len(), front.len(),
{
    if front.len() == 0 {
        got
    } else {
        let a = sweep(front.last(), left, left.len() as int);
        let b = spread(got + a.0, a.1, a.1.len() as int);
        let fresh = b.0.skip((got + a.0).len() as int);
        proof {
            lemma_sweep(front.last(), left, left.len() as int);
            lemma_spread(got + a.0, a.1, a.1.len() as int);
            assert(a.0.len() == 0 && fresh.len() == 0 ==> ends_of(a.0, 0).len() == 0);
        }
        flood(
            b.0,
            front.drop_last() + ends_of(a.0, a.0.len() as int) + ends_of(
                fresh,
                fresh.len() as int,
            ),
            b.1,
        )
    }
}

/// Segments of the net connected to `pos`.
pub open spec fn connected(st: DrawnV, net: Seq<char>, pos: Pt) -> Seq<(Pt, Pt)> {
    flood(Seq::empty(), seq![pos], segs_of_net(st, net))
}

pub open spec fn wire_segs(s: Seq<(Pt, Pt)>) -> bool {
    forall|i: int|
        0 <= i < s.len() ==> symlib::wire_pt((#[trigger] s[i]).0) && symlib::wire_pt(s[i].1)
}

pub(crate) fn push_segs(out: &mut Vec<(Pt, Pt)>, w: &Vec<Pt>)
    requires
        router::wire_path(w@),
        wire_segs(old(out)@),
    ensures
        final(out)@ == old(out)@ + segs_of(w@, w@.len() - 1),
        wire_segs(final(out)@),
{
    let ghost o0 = out@;
    let mut k: usize = 1;
    assert(out@ =~= o0 + segs_of(w@, 0));
    while k < w.len()
        invariant
            1 <= k,
            k <= w@.len() || k == 1,
            router::wire_path(w@),
            wire_segs(out@),
            out@ == o0 + segs_of(w@, k - 1),
        decreases w@.len() - k,
    {
        out.push((w[k - 1], w[k]));
        assert(out@ =~= o0 + segs_of(w@, k as int));
        k += 1;
    }
    assert(segs_of(w@, w@.len() - 1) == segs_of(w@, k - 1));
}

impl Drawn {
    pub(crate) fn net_list(&self, net: &str) -> (r: Vec<usize>)
        requires
            self.wf(),
        ensures
            r@ == wires_of(self@, net@),
            forall|i: int| 0 <= i < r@.len() ==> #[trigger] r@[i] < self.wires@.len(),
    {
        proof {
            order_map::lemma_list_found(self.net_wires, net@);
        }
        let mut r: Vec<usize> = Vec::new();
        match self.net_wires.get(net) {
            Some(l) => {
                let ghost at = self.net_wires.at(net@);
                proof {
                    assert(self@.net_wires[at].1 == l@);
                }
                let mut i: usize = 0;
                while i < l.len()
                    invariant
                        i <= l@.len(),
                        self.wf(),
                        0 <= at < self@.net_wires.len(),
                        self@.net_wires[at].1 == l@,
                        r@ == l@.take(i as int),
                        forall|j: int| 0 <= j < i ==> #[trigger] r@[j] < self.wires@.len(),
                    decreases l@.len() - i,
                {
                    assert(self@.net_wires[at].1[i as int] < self@.wires.len());
                    assert(l@.take(i + 1) =~= l@.take(i as int).push(l@[i as int]));
                    r.push(l[i]);
                    i += 1;
                }
                assert(l@.take(i as int) =~= l@);
            },
            None => {},
        }
        r
    }

    pub(crate) fn net_segs(&self, net: &str) -> (r: Vec<(Pt, Pt)>)
        requires
            self.wf(),
        ensures
            r@ == segs_of_net(self@, net@),
            wire_segs(r@),
    {
        let l = self.net_list(net);
        let mut r: Vec<(Pt, Pt)> = Vec::new();
        let mut i: usize = 0;
        while i < l.len()
            invariant
                i <= l@.len(),
                self.wf(),
                forall|i: int| 0 <= i < l@.len() ==> #[trigger] l@[i] < self.wires@.len(),
                wire_segs(r@),
                r@ == listed_segs(self@.wires, l@, i as int),
            decreases l@.len() - i,
        {
            let k: usize = l[i];
            assert(k < self.wires@.len());
            assert(self@.wires[k as int] == self.wires@[k as int]@);
            push_segs(&mut r, &self.wires[k]);
            i += 1;
        }
        r
    }

    fn component_segments(&self, net: &str, pos: Pt) -> (r: Vec<(Pt, Pt)>)
        requires
            self.wf(),
            symlib::wire_pt(pos),
        ensures
            r@ == connected(self@, net@, pos),
            wire_segs(r@),
    {
        let mut left = self.net_segs(net);
        let mut got: Vec<(Pt, Pt)> = Vec::new();
        let mut front: Vec<Pt> = Vec::new();
        front.push(pos);
        let ghost goal = connected(self@, net@, pos);
        assert(front@ =~= seq![pos]);
        while front.len() > 0
            invariant
                wire_segs(left@),
                wire_segs(got@),
                router::wire_path(front@),
                goal == flood(got@, front@, left@),
            decreases left@.len(), front@.len(),
        {
            let ghost l0 = left@;
            let ghost g0 = got@;
            let ghost f0 = front@;
            let p: Pt = front[front.len() - 1];
            assert(symlib::wire_pt(p));
            let _ = front.pop();
            let ghost a = sweep(p, l0, l0.len() as int);
            let mut keep: Vec<(Pt, Pt)> = Vec::new();
            let mut i: usize = 0;
            assert(got@ =~= g0 + sweep(p, l0, 0).0);
            assert(front@ =~= f0.drop_last() + ends_of(sweep(p, l0, 0).0, 0));
            while i < left.len()
                invariant
                    i <= left@.len(),
                    left@ == l0,
                    symlib::wire_pt(p),
                    wire_segs(l0),
                    wire_segs(got@),
                    wire_segs(keep@),
                    router::wire_path(front@),
                    got@ == g0 + sweep(p, l0, i as int).0,
                    keep@ == sweep(p, l0, i as int).1,
                    front@ == f0.drop_last() + ends_of(
                        sweep(p, l0, i as int).0,
                        sweep(p, l0, i as int).0.len() as int,
                    ),
                decreases left@.len() - i,
            {
                let s: (Pt, Pt) = left[i];
                assert(symlib::wire_pt(l0[i as int].0));
                let ghost x = sweep(p, l0, i as int).0;
                if on_segment(p, s.0, s.1) {
                    got.push(s);
                    front.push(s.0);
                    front.push(s.1);
                    proof {
                        lemma_ends_push(x, s);
                        assert(got@ =~= g0 + x.push(s));
                        assert(front@ =~= f0.drop_last() + ends_of(
                            x.push(s),
                            x.push(s).len() as int,
                        ));
                    }
                } else {
                    keep.push(s);
                }
                i += 1;
            }
            let ghost g1 = got@;
            let ghost f1 = front@;
            let ghost k1 = keep@;
            let mut rest: Vec<(Pt, Pt)> = Vec::new();
            let mut j: usize = 0;
            proof {
                assert(g1.skip(g1.len() as int) =~= Seq::empty());
                assert(front@ =~= f1 + ends_of(spread(g1, k1, 0).0.skip(g1.len() as int), 0));
            }
            while j < keep.len()
                invariant
                    j <= keep@.len(),
                    keep@ == k1,
                    wire_segs(k1),
                    wire_segs(got@),
                    wire_segs(rest@),
                    router::wire_path(front@),
                    got@ == spread(g1, k1, j as int).0,
                    rest@ == spread(g1, k1, j as int).1,
                    front@ == f1 + ends_of(
                        spread(g1, k1, j as int).0.skip(g1.len() as int),
                        spread(g1, k1, j as int).0.skip(g1.len() as int).len() as int,
                    ),
                decreases keep@.len() - j,
            {
                let s: (Pt, Pt) = keep[j];
                assert(symlib::wire_pt(k1[j as int].0));
                let ghost y = spread(g1, k1, j as int).0;
                proof {
                    lemma_spread(g1, k1, j as int);
                }
                if is_touching(&got, s) {
                    got.push(s);
                    front.push(s.0);
                    front.push(s.1);
                    proof {
                        let z = y.skip(g1.len() as int);
                        assert(y.push(s).skip(g1.len() as int) =~= z.push(s));
                        lemma_ends_push(z, s);
                        assert(front@ =~= f1 + ends_of(z.push(s), z.push(s).len() as int));
                    }
                } else {
                    rest.push(s);
                }
                j += 1;
            }
            proof {
                lemma_sweep(p, l0, l0.len() as int);
                lemma_spread(g1, k1, k1.len() as int);
            }
            left = rest;
        }
        got
    }
}

proof fn lemma_ends_push(s: Seq<(Pt, Pt)>, x: (Pt, Pt))
    ensures
        ends_of(s.push(x), s.len() as int + 1) == ends_of(s, s.len() as int).push(x.0).push(x.1),
{
    lemma_ends_prefix(s, s.push(x), s.len() as int);
}

proof fn lemma_ends_prefix(s: Seq<(Pt, Pt)>, t: Seq<(Pt, Pt)>, n: int)
    requires
        0 <= n <= s.len(),
        n <= t.len(),
        forall|i: int| 0 <= i < n ==> s[i] == t[i],
    ensures
        ends_of(s, n) == ends_of(t, n),
    decreases n,
{
    if n > 0 {
        lemma_ends_prefix(s, t, n - 1);
    }
}

fn is_touching(got: &Vec<(Pt, Pt)>, s: (Pt, Pt)) -> (r: bool)
    requires
        wire_segs(got@),
        symlib::wire_pt(s.0),
        symlib::wire_pt(s.1),
    ensures
        r == touches(got@, s),
{
    let mut i: usize = 0;
    while i < got.len()
        invariant
            i <= got@.len(),
            wire_segs(got@),
            symlib::wire_pt(s.0),
            symlib::wire_pt(s.1),
            forall|j: int|
                0 <= j < i ==> !(geom::on_seg(s.0, (#[trigger] got@[j]).0, got@[j].1)
                    || geom::on_seg(s.1, got@[j].0, got@[j].1)),
        decreases got@.len() - i,
    {
        let g: (Pt, Pt) = got[i];
        assert(symlib::wire_pt(got@[i as int].0));
        if on_segment(s.0, g.0, g.1) || on_segment(s.1, g.0, g.1) {
            assert(geom::on_seg(s.0, got@[i as int].0, got@[i as int].1) || geom::on_seg(
                s.1,
                got@[i as int].0,
                got@[i as int].1,
            ));
            return true;
        }
        i += 1;
    }
    false
}

/// A way to attach a label: its stub wire, its anchor and its rotation. A label that sits on a
/// wire has no stub.
#[verifier::ext_equal]
pub struct CandV {
    pub path: Seq<Pt>,
    pub far: Pt,
    pub rot: int,
}

#[derive(Debug)]
pub struct Cand {
    pub path: Vec<Pt>,
    pub far: Pt,
    pub rot: i32,
}

impl View for Cand {
    type V = CandV;

    open spec fn view(&self) -> CandV {
        CandV { path: self.path@, far: self.far, rot: self.rot as int }
    }
}

pub open spec fn cands_v(v: Seq<Cand>) -> Seq<CandV> {
    Seq::new(v.len(), |i: int| v[i]@)
}

/// The part and pin positions of a net in this group.
pub open spec fn members_of(f: Frame, net: Seq<char>) -> Seq<(usize, usize)> {
    match order_map::look(order_map::list_pairs(f.nets), net) {
        Some(l) => l,
        None => Seq::empty(),
    }
}

/// How far the other pins of the net lie in direction `s` from the pin, summed over the first `n`.
pub open spec fn pull(f: Frame, lst: Seq<(usize, usize)>, e: End, s: Dir, n: int) -> int
    decreases n,
{
    if n <= 0 {
        0
    } else {
        let r = lst[n - 1];
        let o = f.end_spec(r).pos;
        pull(f, lst, e, s, n - 1) + (if r.0 == e.p && r.1 == e.pin {
            0int
        } else {
            (o.x - e.pos.x) * s.0 + (o.y - e.pos.y) * s.1
        })
    }
}

/// The two sideways directions of a pin, the one that faces the rest of its net first.
pub open spec fn sides(f: Frame, e: End, net: Seq<char>) -> (Dir, Dir) {
    let a = if e.d.0 == 0 { (e.d.1, 0i32) } else { (0i32, 1i32) };
    let b = ((-a.0) as i32, (-a.1) as i32);
    let lst = members_of(f, net);
    if pull(f, lst, e, a, lst.len() as int) < 0 {
        (b, a)
    } else {
        (a, b)
    }
}

/// A straight stub of `k` units.
pub open spec fn straight_cand(e: End, k: int) -> CandV {
    let far = geom::step(e.pos, e.d, k);
    CandV { path: seq![e.pos, far], far, rot: geo::rot_label_spec(e.d) }
}

/// A stub two grid steps outward, then `k` units sideways.
pub open spec fn bent_cand(e: End, s: Dir, k: int) -> CandV {
    let mid = geom::step(e.pos, e.d, 254_000);
    let far = geom::step(mid, s, k);
    CandV { path: seq![e.pos, mid, far], far, rot: geo::rot_label_spec(s) }
}

/// Four, six, eight, ten, twelve and fourteen grid steps outward.
pub open spec fn straight_cands(e: End) -> Seq<CandV> {
    Seq::new(6, |i: int| straight_cand(e, 508_000 + 254_000 * i))
}

/// Four to twelve grid steps to one side.
pub open spec fn bent_cands(e: End, s: Dir) -> Seq<CandV> {
    Seq::new(5, |i: int| bent_cand(e, s, 508_000 + 254_000 * i))
}

/// The labels that sit on a horizontal run of at least four grid steps among the first `n`
/// segments.
pub open spec fn on_wire_cands(s: Seq<(Pt, Pt)>, n: int) -> Seq<CandV>
    decreases n,
{
    if n <= 0 {
        Seq::empty()
    } else {
        let r = on_wire_cands(s, n - 1);
        let (a, b) = s[n - 1];
        if a.y == b.y && geom::mag(a.x - b.x) >= 508_000 {
            r.push(
                CandV {
                    path: Seq::empty(),
                    far: Pt { x: middle(a.x as int, b.x as int) as i64, y: a.y },
                    rot: 0,
                },
            )
        } else {
            r
        }
    }
}

/// The middle of two coordinates, on an even grid line.
pub open spec fn middle(a: int, b: int) -> int {
    geom::round_div(a + b, 508_000) * 254_000
}

/// Every way to attach a label at a pin, the preferred first: on a wire the pin already has;
/// straight stubs and then bent ones for a side pin, two short bent ones first for a vertical pin.
pub open spec fn label_cands(f: Frame, st: DrawnV, e: End, net: Seq<char>) -> Seq<CandV> {
    let s = sides(f, e, net);
    let bent = bent_cands(e, s.0) + bent_cands(e, s.1);
    let base = if e.d.1 != 0 {
        bent.take(2) + straight_cands(e) + bent.skip(2)
    } else {
        straight_cands(e) + bent
    };
    if st.wired.contains(f.key_spec(e)) {
        let segs = connected(st, net, e.pos);
        on_wire_cands(segs, segs.len() as int) + base
    } else {
        base
    }
}

pub open spec fn cand_free(f: Frame, st: DrawnV, e: End, net: Seq<char>, c: CandV) -> bool {
    spot_free(
        f,
        st,
        e.p as int,
        e.pos,
        geo::label_box_spec(net, c.far, c.rot, "local"@),
        c.path,
    )
}

/// The first candidate from `i` on that keeps clear of everything, or the length.
pub open spec fn first_free(
    f: Frame,
    st: DrawnV,
    e: End,
    net: Seq<char>,
    cs: Seq<CandV>,
    i: int,
) -> int
    decreases cs.len() - i,
{
    if i < 0 || i >= cs.len() {
        cs.len() as int
    } else if cand_free(f, st, e, net, cs[i]) {
        i
    } else {
        first_free(f, st, e, net, cs, i + 1)
    }
}

/// The drawing with the label attached.
pub open spec fn with_cand(f: Frame, st: DrawnV, e: End, net: Seq<char>, c: CandV) -> DrawnV {
    DrawnV {
        labelled: st.labelled.insert(f.key_spec(e)),
        wires: if c.path.len() >= 2 { st.wires.push(c.path) } else { st.wires },
        wired: st.wired.insert(f.key_spec(e)),
        geo: st.geo.with_label(net, c.far, c.rot, "local"@, "input"@),
        reserved: st.reserved.push((geo::label_box_spec(net, c.far, c.rot, "local"@), None)),
        ..st
    }
}

/// Whether a label was placed, and the drawing afterwards. With `force` the preferred candidate is
/// taken where none is clear.
pub open spec fn label_spec(f: Frame, st: DrawnV, e: End, net: Seq<char>, force: bool) -> (
    bool,
    DrawnV,
) {
    let cs = label_cands(f, st, e, net);
    let i = first_free(f, st, e, net, cs, 0);
    if i < cs.len() {
        (true, with_cand(f, st, e, net, cs[i]))
    } else if force {
        (true, with_cand(f, st, e, net, cs[0]))
    } else {
        (false, st)
    }
}

pub open spec fn cand_ok(c: CandV) -> bool {
    symlib::wide_pt(c.far) && router::wire_path(c.path)
}

pub open spec fn cands_ok(v: Seq<CandV>) -> bool {
    forall|i: int| 0 <= i < v.len() ==> cand_ok(#[trigger] v[i])
}

/// The middle of two wire coordinates, on an even grid line.
fn mid_line(a: i64, b: i64) -> (r: i64)
    requires
        -0x280_0000_0000 <= a <= 0x280_0000_0000,
        -0x280_0000_0000 <= b <= 0x280_0000_0000,
    ensures
        r == middle(a as int, b as int),
        symlib::wide(r as int),
        -0x2f0_0000_0000 <= r <= 0x2f0_0000_0000,
{
    let q: i64 = round_quotient(a + b, 508_000);
    proof {
        let v = (a + b) as int;
        let k = v / 508_000;
        assert(v == 508_000 * k + v % 508_000);
    }
    q * 254_000
}

impl Frame {
    pub(crate) fn members(&self, net: &str) -> (r: Vec<(usize, usize)>)
        requires
            self.wf(),
        ensures
            r@ == members_of(*self, net@),
            refs_ok(self.parts@, r@),
    {
        proof {
            order_map::lemma_list_found(self.nets, net@);
        }
        match self.nets.get(net) {
            Some(l) => {
                assert(l@ == self.nets.vals@[self.nets.at(net@)]@);
                dup_refs(l)
            },
            None => Vec::new(),
        }
    }

    fn lean(&self, net: &str, e: &End) -> (r: (Dir, Dir))
        requires
            self.wf(),
            end_ok(*self, *e),
        ensures
            r == sides(*self, *e, net@),
            geom::is_dir(r.0),
            geom::is_dir(r.1),
    {
        let a: Dir = if e.d.0 == 0 { (e.d.1, 0) } else { (0, 1) };
        let b: Dir = (-a.0, -a.1);
        let lst = self.members(net);
        let mut sum: i128 = 0;
        let mut i: usize = 0;
        while i < lst.len()
            invariant
                i <= lst@.len(),
                self.wf(),
                end_ok(*self, *e),
                geom::is_dir(a),
                refs_ok(self.parts@, lst@),
                sum == pull(*self, lst@, *e, a, i as int),
                -(i * 0x1000_0000_0000) <= sum <= i * 0x1000_0000_0000,
            decreases lst@.len() - i,
        {
            let r: (usize, usize) = lst[i];
            assert(r == lst@[i as int]);
            if !(r.0 == e.p && r.1 == e.pin) {
                let o = self.end_at(r);
                let x: i64 = o.pos.x - e.pos.x;
                let y: i64 = o.pos.y - e.pos.y;
                let t: i64 = if a.0 == 1 {
                    x
                } else if a.0 == -1 {
                    -x
                } else if a.1 == 1 {
                    y
                } else {
                    -y
                };
                proof {
                    assert(x * a.0 + y * a.1 == t) by (nonlinear_arith)
                        requires
                            geom::is_dir(a),
                            t == (if a.0 == 1 {
                                x as int
                            } else if a.0 == -1 {
                                -x
                            } else if a.1 == 1 {
                                y as int
                            } else {
                                -y
                            }),
                    ;
                }
                sum = sum + t as i128;
            }
            i += 1;
        }
        if sum < 0 { (b, a) } else { (a, b) }
    }

    fn bent_stubs(&self, e: &End, s: Dir) -> (r: Vec<Cand>)
        requires
            end_ok(*self, *e),
            geom::is_dir(s),
        ensures
            cands_v(r@) == bent_cands(*e, s),
            cands_ok(cands_v(r@)),
    {
        let mid: Pt = outward(e.pos, e.d, 254_000);
        let mut r: Vec<Cand> = Vec::new();
        let mut i: i64 = 0;
        while i < 5
            invariant
                0 <= i <= 5,
                end_ok(*self, *e),
                geom::is_dir(s),
                mid == geom::step(e.pos, e.d, 254_000),
                symlib::wire_pt(mid),
                -0x200_1000_0100 <= mid.x <= 0x200_1000_0100,
                -0x200_1000_0100 <= mid.y <= 0x200_1000_0100,
                cands_v(r@) == bent_cands(*e, s).take(i as int),
                cands_ok(cands_v(r@)),
            decreases 5 - i,
        {
            let k: i64 = 508_000 + 254_000 * i;
            let far: Pt = outward(mid, s, k);
            let mut path: Vec<Pt> = Vec::new();
            path.push(e.pos);
            path.push(mid);
            path.push(far);
            assert(path@ =~= seq![e.pos, mid, far]);
            let c = Cand { path, far, rot: rot_label(s) };
            let ghost r0 = r@;
            let ghost cv = c@;
            r.push(c);
            proof {
                assert(cv =~= bent_cand(*e, s, k as int));
                assert(cand_ok(cv));
                assert(bent_cands(*e, s).take(i + 1) =~= bent_cands(*e, s).take(i as int).push(cv));
                assert(cands_v(r@) =~= cands_v(r0).push(cv));
            }
            i += 1;
        }
        assert(bent_cands(*e, s).take(5) =~= bent_cands(*e, s));
        r
    }

    fn straight_stubs(&self, e: &End) -> (r: Vec<Cand>)
        requires
            end_ok(*self, *e),
        ensures
            cands_v(r@) == straight_cands(*e),
            cands_ok(cands_v(r@)),
    {
        let mut r: Vec<Cand> = Vec::new();
        let mut i: i64 = 0;
        while i < 6
            invariant
                0 <= i <= 6,
                end_ok(*self, *e),
                cands_v(r@) == straight_cands(*e).take(i as int),
                cands_ok(cands_v(r@)),
            decreases 6 - i,
        {
            let k: i64 = 508_000 + 254_000 * i;
            let far: Pt = outward(e.pos, e.d, k);
            let mut path: Vec<Pt> = Vec::new();
            path.push(e.pos);
            path.push(far);
            assert(path@ =~= seq![e.pos, far]);
            let c = Cand { path, far, rot: rot_label(e.d) };
            let ghost r0 = r@;
            let ghost cv = c@;
            r.push(c);
            proof {
                assert(cv =~= straight_cand(*e, k as int));
                assert(cand_ok(cv));
                assert(straight_cands(*e).take(i + 1) =~= straight_cands(*e).take(i as int).push(cv));
                assert(cands_v(r@) =~= cands_v(r0).push(cv));
            }
            i += 1;
        }
        assert(straight_cands(*e).take(6) =~= straight_cands(*e));
        r
    }

    fn on_wires(&self, segs: &Vec<(Pt, Pt)>) -> (r: Vec<Cand>)
        requires
            wire_segs(segs@),
        ensures
            cands_v(r@) == on_wire_cands(segs@, segs@.len() as int),
            cands_ok(cands_v(r@)),
    {
        let mut r: Vec<Cand> = Vec::new();
        let mut i: usize = 0;
        assert(cands_v(r@) =~= Seq::empty());
        while i < segs.len()
            invariant
                i <= segs@.len(),
                wire_segs(segs@),
                cands_v(r@) == on_wire_cands(segs@, i as int),
                cands_ok(cands_v(r@)),
            decreases segs@.len() - i,
        {
            let (a, b) = segs[i];
            assert(symlib::wire_pt(segs@[i as int].0));
            if a.y == b.y && abs_i(a.x - b.x) >= 508_000 {
                let far = Pt { x: mid_line(a.x, b.x), y: a.y };
                let c = Cand { path: Vec::new(), far, rot: 0 };
                let ghost r0 = r@;
                let ghost cv = c@;
                r.push(c);
                proof {
                    assert(cv =~= CandV { path: Seq::empty(), far, rot: 0 });
                    assert(cand_ok(cv));
                    assert(cands_v(r@) =~= cands_v(r0).push(cv));
                }
            }
            i += 1;
        }
        r
    }

    fn label_ways(&self, st: &Drawn, e: &End, net: &str) -> (r: Vec<Cand>)
        requires
            self.wf(),
            st.wf(),
            end_ok(*self, *e),
        ensures
            cands_v(r@) == label_cands(*self, st@, *e, net@),
            cands_ok(cands_v(r@)),
            r@.len() > 0,
    {
        let s = self.lean(net, e);
        let mut bent = self.bent_stubs(e, s.0);
        let mut more = self.bent_stubs(e, s.1);
        let ghost b0 = cands_v(bent@);
        let ghost b1 = cands_v(more@);
        bent.append(&mut more);
        let ghost all = b0 + b1;
        assert(cands_v(bent@) =~= all);
        let mut straight = self.straight_stubs(e);
        let ghost sv = cands_v(straight@);
        let mut r: Vec<Cand> = Vec::new();
        if self.is_marked(&st.wired_pins, e) {
            let segs = st.component_segments(net, e.pos);
            r = self.on_wires(&segs);
        }
        let ghost ow = cands_v(r@);
        if e.d.1 != 0 {
            let mut tail = bent.split_off(2);
            assert(cands_v(bent@) =~= all.take(2));
            assert(cands_v(tail@) =~= all.skip(2));
            r.append(&mut bent);
            assert(cands_v(r@) =~= ow + all.take(2));
            r.append(&mut straight);
            assert(cands_v(r@) =~= ow + all.take(2) + sv);
            r.append(&mut tail);
            assert(cands_v(r@) =~= ow + (all.take(2) + sv + all.skip(2)));
        } else {
            r.append(&mut straight);
            assert(cands_v(r@) =~= ow + sv);
            r.append(&mut bent);
            assert(cands_v(r@) =~= ow + (sv + all));
        }
        proof {
            assert(cands_v(r@) =~= label_cands(*self, st@, *e, net@));
            let v = cands_v(r@);
            assert forall|i: int| 0 <= i < v.len() implies cand_ok(#[trigger] v[i]) by {
                let k = ow.len() as int;
                if i < k {
                    assert(v[i] == ow[i]);
                } else if e.d.1 != 0 {
                    if i < k + 2 {
                        assert(v[i] == b0[i - k]);
                    } else if i < k + 8 {
                        assert(v[i] == sv[i - k - 2]);
                    } else {
                        assert(v[i] == all[i - k - 6]);
                        if i - k - 6 < 5 {
                            assert(all[i - k - 6] == b0[i - k - 6]);
                        } else {
                            assert(all[i - k - 6] == b1[i - k - 6 - 5]);
                        }
                    }
                } else {
                    if i < k + 6 {
                        assert(v[i] == sv[i - k]);
                    } else {
                        assert(v[i] == all[i - k - 6]);
                        if i - k - 6 < 5 {
                            assert(all[i - k - 6] == b0[i - k - 6]);
                        } else {
                            assert(all[i - k - 6] == b1[i - k - 6 - 5]);
                        }
                    }
                }
            }
        }
        r
    }

    fn place_label(&self, st: &mut Drawn, e: &End, net: &str, c: &Cand)
        requires
            self.wf(),
            old(st).wf(),
            end_ok(*self, *e),
            net@.len() <= TEXT_MAX,
            cand_ok(c@),
        ensures
            final(st)@ == with_cand(*self, old(st)@, *e, net@, c@),
            final(st).wf(),
    {
        let ghost s0 = st@;
        self.mark(&mut st.labelled_pins, e);
        if c.path.len() >= 2 {
            let p = dup_path(&c.path);
            st.wires.push(p);
            assert(geo::paths_v(st.wires@) =~= s0.wires.push(c.path@));
        }
        self.mark(&mut st.wired_pins, e);
        let b = st.geo.label_box(net, c.far, c.rot, "local");
        st.geo.add_label(net, c.far, c.rot, "local", "input");
        let ghost z0 = st.reserved@;
        st.reserved.push((b, None));
        proof {
            assert(zones_v(st.reserved@) =~= zones_v(z0).push((b, None)));
            assert(st@ =~= with_cand(*self, s0, *e, net@, c@));
        }
    }

    fn label_pin(&self, st: &mut Drawn, e: &End, net: &str, force: bool) -> (r: bool)
        requires
            self.wf(),
            old(st).wf(),
            end_ok(*self, *e),
            net@.len() <= TEXT_MAX,
        ensures
            (r, final(st)@) == label_spec(*self, old(st)@, *e, net@, force),
            final(st).wf(),
    {
        let cs = self.label_ways(st, e, net);
        let ghost s0 = st@;
        let ghost all = cands_v(cs@);
        let mut i: usize = 0;
        while i < cs.len()
            invariant
                i <= cs@.len(),
                self.wf(),
                st.wf(),
                st@ == s0,
                end_ok(*self, *e),
                net@.len() <= TEXT_MAX,
                all == cands_v(cs@),
                all == label_cands(*self, s0, *e, net@),
                cands_ok(all),
                s0 == old(st)@,
                first_free(*self, s0, *e, net@, all, 0) == first_free(
                    *self,
                    s0,
                    *e,
                    net@,
                    all,
                    i as int,
                ),
            decreases cs@.len() - i,
        {
            let c = &cs[i];
            assert(all[i as int] == c@);
            assert(cand_ok(all[i as int]));
            let b = st.geo.label_box(net, c.far, c.rot, "local");
            if self.label_spot_free(st, e.p, e.pos, &b, &c.path) {
                self.place_label(st, e, net, c);
                return true;
            }
            i += 1;
        }
        if force {
            assert(all[0] == cs@[0]@);
            self.place_label(st, e, net, &cs[0]);
            return true;
        }
        false
    }
}

pub(crate) fn dup_refs(v: &Vec<(usize, usize)>) -> (r: Vec<(usize, usize)>)
    ensures
        r@ == v@,
{
    let mut r: Vec<(usize, usize)> = Vec::new();
    let mut i: usize = 0;
    while i < v.len()
        invariant
            i <= v@.len(),
            r@ == v@.take(i as int),
        decreases v@.len() - i,
    {
        assert(v@.take(i + 1) =~= v@.take(i as int).push(v@[i as int]));
        r.push(v[i]);
        i += 1;
    }
    assert(v@.take(i as int) =~= v@);
    r
}

/// The boxes of the first `n` parts, each with its part.
pub open spec fn flat_boxes(f: Frame, n: int) -> Seq<(int, BBox)>
    decreases n,
{
    if n <= 0 {
        Seq::empty()
    } else {
        let b = f.boxes_of(n - 1);
        flat_boxes(f, n - 1) + Seq::new(b.len(), |i: int| (n - 1, b[i]))
    }
}

/// The segments of the first `n` wires.
pub open spec fn all_segs(ws: Seq<Seq<Pt>>, n: int) -> Seq<(Pt, Pt)>
    decreases n,
{
    if n <= 0 {
        Seq::empty()
    } else {
        all_segs(ws, n - 1) + segs_of(ws[n - 1], ws[n - 1].len() - 1)
    }
}

/// How many of the first `n` segments the segment `u`-`v` crosses.
pub open spec fn cross_count(segs: Seq<(Pt, Pt)>, u: Pt, v: Pt, n: int) -> int
    decreases n,
{
    if n <= 0 {
        0
    } else {
        cross_count(segs, u, v, n - 1) + (if geom::cross(u, v, segs[n - 1].0, segs[n - 1].1) {
            1int
        } else {
            0
        })
    }
}

/// What a trunk is drawn among: the boxes of the parts and the segments already there.
pub struct FieldV {
    pub boxes: Seq<(int, BBox)>,
    pub segs: Seq<(Pt, Pt)>,
}

pub open spec fn field_of(f: Frame, st: DrawnV) -> FieldV {
    FieldV {
        boxes: flat_boxes(f, f.parts@.len() as int),
        segs: all_segs(st.wires, st.wires.len() as int),
    }
}

/// The segment runs into a box of a part other than `own`.
pub open spec fn runs_into(fl: FieldV, u: Pt, v: Pt, own: int) -> bool {
    exists|i: int|
        0 <= i < fl.boxes.len() && (#[trigger] fl.boxes[i]).0 != own && geom::hits(
            u,
            v,
            fl.boxes[i].1,
            38_100,
        )
}

/// Segments crossed on the way from `u` to `v`, or `None` where a part is in the way.
pub open spec fn clear_spec(fl: FieldV, u: Pt, v: Pt, own: int) -> Option<int> {
    if runs_into(fl, u, v, own) {
        None
    } else {
        Some(cross_count(fl.segs, u, v, fl.segs.len() as int))
    }
}

/// The point at `along` on a trunk's axis and `across` from it, in cells.
pub open spec fn trunk_pt(horizontal: bool, along: int, across: int) -> Pt {
    if horizontal {
        Pt { x: (along * GRID) as i64, y: (across * GRID) as i64 }
    } else {
        Pt { x: (across * GRID) as i64, y: (along * GRID) as i64 }
    }
}

/// How one pin reaches a trunk.
pub enum LegV {
    /// It cannot.
    Blocked,
    /// Its tip lies on the trunk line, at this place.
    On(int),
    /// By this wire, at this cost, at this place.
    Wire(Seq<Pt>, int, int),
}

/// A pin that points at the trunk drops straight onto it, at least two cells; one that points
/// along it goes two cells outward first. Each crossed segment costs twenty, a bend six.
pub open spec fn leg_spec(fl: FieldV, e: End, t: int, horizontal: bool) -> LegV {
    let c = router::cell_of_spec(e.pos);
    let (along, across) = if horizontal { (c.x as int, c.y as int) } else { (c.y as int, c.x as int) };
    let (side, toward) = if horizontal {
        (e.d.0 as int, e.d.1 as int)
    } else {
        (e.d.1 as int, e.d.0 as int)
    };
    if across == t {
        LegV::On(along)
    } else if toward != 0 {
        let (u, v) = (trunk_pt(horizontal, along, across), trunk_pt(horizontal, along, t));
        if (t - across) * toward < 2 {
            LegV::Blocked
        } else {
            match clear_spec(fl, u, v, e.p as int) {
                None => LegV::Blocked,
                Some(n) => LegV::Wire(seq![u, v], geom::mag(t - across) + 20 * n, along),
            }
        }
    } else {
        let m = along + 2 * side;
        let (u, v, w) = (
            trunk_pt(horizontal, along, across),
            trunk_pt(horizontal, m, across),
            trunk_pt(horizontal, m, t),
        );
        match (clear_spec(fl, u, v, e.p as int), clear_spec(fl, v, w, -1)) {
            (Some(a), Some(b)) => LegV::Wire(
                seq![u, v, w],
                8 + geom::mag(t - across) + 20 * (a + b),
                m,
            ),
            _ => LegV::Blocked,
        }
    }
}

/// Wires, cost and trunk places of the first `n` pins, or `None` where one cannot reach the trunk.
pub open spec fn legs_spec(fl: FieldV, ends: Seq<End>, t: int, horizontal: bool, n: int) -> Option<
    (Seq<Seq<Pt>>, int, Seq<int>),
>
    decreases n,
{
    if n <= 0 {
        Some((Seq::empty(), 0, Seq::empty()))
    } else {
        match legs_spec(fl, ends, t, horizontal, n - 1) {
            None => None,
            Some(r) => match leg_spec(fl, ends[n - 1], t, horizontal) {
                LegV::Blocked => None,
                LegV::On(a) => Some((r.0, r.1, r.2.push(a))),
                LegV::Wire(p, c, a) => Some((r.0.push(p), r.1 + c, r.2.push(a))),
            },
        }
    }
}

pub open spec fn least(v: Seq<int>) -> int
    decreases v.len(),
{
    if v.len() <= 1 {
        v[0]
    } else {
        geom::lo(least(v.drop_last()), v.last())
    }
}

pub open spec fn greatest(v: Seq<int>) -> int
    decreases v.len(),
{
    if v.len() <= 1 {
        v[0]
    } else {
        geom::hi(greatest(v.drop_last()), v.last())
    }
}

/// The wires of the trunk at `t` and their score: total cost and three for each wire.
pub open spec fn trunk_spec(fl: FieldV, ends: Seq<End>, t: int, horizontal: bool) -> Option<
    (Seq<Seq<Pt>>, int),
> {
    match legs_spec(fl, ends, t, horizontal, ends.len() as int) {
        None => None,
        Some(r) => if r.2.len() < 2 {
            None
        } else {
            let (a, b) = (least(r.2), greatest(r.2));
            if b - a > 0 {
                let (u, v) = (trunk_pt(horizontal, a, t), trunk_pt(horizontal, b, t));
                match clear_spec(fl, u, v, -1) {
                    None => None,
                    Some(n) => Some(
                        (r.0.push(seq![u, v]), r.1 + (b - a) + 20 * n + 3 * (r.0.len() + 1)),
                    ),
                }
            } else {
                Some((r.0, r.1 + 3 * r.0.len()))
            }
        },
    }
}

/// Cells across the trunk's axis where the pins lie.
pub open spec fn pin_lines(ends: Seq<End>, horizontal: bool) -> Seq<i64> {
    Seq::new(
        ends.len(),
        |i: int|
            if horizontal {
                router::cell_of_spec(ends[i].pos).y
            } else {
                router::cell_of_spec(ends[i].pos).x
            },
    )
}

pub open spec fn sorted_lines(v: Seq<i64>) -> Seq<i64> {
    let o = order::by_key(Seq::new(v.len(), |i: int| (v[i], 0i64, 0i64)));
    Seq::new(v.len(), |i: int| v[o[i]])
}

/// Lines worth trying for one pin: two to eight cells outward, and for a pin that points along the
/// trunk four and six cells to either side.
pub open spec fn pin_tries(e: End, horizontal: bool) -> Seq<i64> {
    let c = router::cell_of_spec(e.pos);
    let (q, toward) = if horizontal { (c.y as int, e.d.1 as int) } else { (c.x as int, e.d.0 as int) };
    let out = seq![
        (q + toward * 2) as i64,
        (q + toward * 4) as i64,
        (q + toward * 6) as i64,
        (q + toward * 8) as i64,
    ];
    if toward == 0 {
        out + seq![(q - 6) as i64, (q - 4) as i64, (q + 4) as i64, (q + 6) as i64]
    } else {
        out
    }
}

pub open spec fn tries_of(ends: Seq<End>, horizontal: bool, n: int) -> Seq<i64>
    decreases n,
{
    if n <= 0 {
        Seq::empty()
    } else {
        tries_of(ends, horizontal, n - 1) + pin_tries(ends[n - 1], horizontal)
    }
}

/// Every line to try, in the order in which equal scores are decided.
pub open spec fn trunk_lines(ends: Seq<End>, horizontal: bool) -> Seq<i64> {
    engine::slot_order(
        engine::distinct(
            sorted_lines(pin_lines(ends, horizontal)) + tries_of(
                ends,
                horizontal,
                ends.len() as int,
            ),
        ),
    )
}

/// The best trunk among the first `n` lines, starting from `best`; only a better score replaces it.
pub open spec fn best_trunk(
    fl: FieldV,
    ends: Seq<End>,
    lines: Seq<i64>,
    horizontal: bool,
    n: int,
    best: Option<(Seq<Seq<Pt>>, int)>,
) -> Option<(Seq<Seq<Pt>>, int)>
    decreases n,
{
    if n <= 0 {
        best
    } else {
        let b = best_trunk(fl, ends, lines, horizontal, n - 1, best);
        match trunk_spec(fl, ends, lines[n - 1] as int, horizontal) {
            None => b,
            Some(r) => match b {
                Some(x) if r.1 >= x.1 => b,
                _ => Some(r),
            },
        }
    }
}

/// The wires of the best straight trunk with every pin dropping onto it, or `None`.
pub open spec fn route_trunk_spec(f: Frame, st: DrawnV, ends: Seq<End>) -> Option<Seq<Seq<Pt>>> {
    let fl = field_of(f, st);
    let h = trunk_lines(ends, true);
    let v = trunk_lines(ends, false);
    let a = best_trunk(fl, ends, h, true, h.len() as int, None);
    match best_trunk(fl, ends, v, false, v.len() as int, a) {
        Some(r) => Some(r.0),
        None => None,
    }
}

/// What a trunk is drawn among.
#[derive(Debug)]
pub struct Field {
    pub boxes: Vec<(usize, BBox)>,
    pub segs: Vec<(Pt, Pt)>,
}

pub open spec fn owned(v: Seq<(usize, BBox)>) -> Seq<(int, BBox)> {
    Seq::new(v.len(), |i: int| (v[i].0 as int, v[i].1))
}

impl View for Field {
    type V = FieldV;

    open spec fn view(&self) -> FieldV {
        FieldV { boxes: owned(self.boxes@), segs: self.segs@ }
    }
}

impl Field {
    pub open spec fn wf(&self) -> bool {
        forall|i: int| 0 <= i < self.boxes@.len() ==> geom::box_ok((#[trigger] self.boxes@[i]).1)
    }

    fn clear(&self, u: Pt, v: Pt, own: Option<usize>) -> (r: Option<u64>)
        requires
            self.wf(),
        ensures
            match r {
                Some(n) => clear_spec(
                    self@,
                    u,
                    v,
                    match own {
                        Some(k) => k as int,
                        None => -1,
                    },
                ) == Some(n as int),
                None => clear_spec(
                    self@,
                    u,
                    v,
                    match own {
                        Some(k) => k as int,
                        None => -1,
                    },
                ) is None,
            },
    {
        let ghost me: int = match own {
            Some(k) => k as int,
            None => -1,
        };
        let mut i: usize = 0;
        while i < self.boxes.len()
            invariant
                i <= self.boxes@.len(),
                self.wf(),
                me == (match own {
                    Some(k) => k as int,
                    None => -1,
                }),
                forall|j: int|
                    0 <= j < i ==> !((#[trigger] self@.boxes[j]).0 != me && geom::hits(
                        u,
                        v,
                        self@.boxes[j].1,
                        38_100,
                    )),
            decreases self.boxes@.len() - i,
        {
            let b: (usize, BBox) = self.boxes[i];
            assert(self@.boxes[i as int] == (b.0 as int, b.1));
            assert(geom::box_ok(self.boxes@[i as int].1));
            let mine = match own {
                Some(k) => k == b.0,
                None => false,
            };
            if !mine && seg_hits_box(u, v, &b.1, 38_100) {
                return None;
            }
            i += 1;
        }
        let mut n: u64 = 0;
        let mut k: usize = 0;
        while k < self.segs.len()
            invariant
                k <= self.segs@.len(),
                n == cross_count(self@.segs, u, v, k as int),
                n <= k,
            decreases self.segs@.len() - k,
        {
            let s: (Pt, Pt) = self.segs[k];
            if segs_cross(u, v, s.0, s.1) {
                n += 1;
            }
            k += 1;
        }
        Some(n)
    }
}

/// How one pin reaches a trunk.
#[derive(Debug)]
pub enum Leg {
    Blocked,
    On(i64),
    Wire(Vec<Pt>, i128, i64),
}

/// A cell coordinate that a trunk can have.
pub open spec fn trunk_line_ok(t: int) -> bool {
    -0x110_0010 <= t <= 0x110_0010
}

fn trunk_point(horizontal: bool, along: i64, across: i64) -> (p: Pt)
    requires
        trunk_line_ok(along as int),
        trunk_line_ok(across as int),
    ensures
        p == trunk_pt(horizontal, along as int, across as int),
        symlib::wire_pt(p),
{
    if horizontal {
        Pt { x: along * GRID, y: across * GRID }
    } else {
        Pt { x: across * GRID, y: along * GRID }
    }
}

fn two(a: Pt, b: Pt) -> (r: Vec<Pt>)
    requires
        symlib::wire_pt(a),
        symlib::wire_pt(b),
    ensures
        r@ == seq![a, b],
        router::wire_path(r@),
{
    let mut r: Vec<Pt> = Vec::new();
    r.push(a);
    r.push(b);
    assert(r@ =~= seq![a, b]);
    r
}

fn leg(fl: &Field, e: &End, t: i64, horizontal: bool) -> (r: Leg)
    requires
        fl.wf(),
        symlib::tip_pt(e.pos),
        geom::is_dir(e.d),
        trunk_line_ok(t as int),
    ensures
        match (r, leg_spec(fl@, *e, t as int, horizontal)) {
            (Leg::Blocked, LegV::Blocked) => true,
            (Leg::On(a), LegV::On(b)) => a == b && trunk_line_ok(a as int),
            (Leg::Wire(p, c, a), LegV::Wire(q, d, b)) => p@ == q && c == d && a == b
                && trunk_line_ok(a as int) && router::wire_path(p@) && 0 <= c
                <= 0x100_0000_0000_0000_0000,
            _ => false,
        },
{
    let c = cell_of(e.pos);
    let (along, across): (i64, i64) = if horizontal { (c.x, c.y) } else { (c.y, c.x) };
    let (side, toward): (i64, i64) = if horizontal {
        (e.d.0 as i64, e.d.1 as i64)
    } else {
        (e.d.1 as i64, e.d.0 as i64)
    };
    if across == t {
        return Leg::On(along);
    }
    if toward != 0 {
        let far: i64 = if toward == 1 { t - across } else { across - t };
        proof {
            assert((t - across) * toward == far) by (nonlinear_arith)
                requires
                    toward == 1 || toward == -1,
                    far == (if toward == 1 { t - across } else { across - t }),
            ;
        }
        if far < 2 {
            return Leg::Blocked;
        }
        let u = trunk_point(horizontal, along, across);
        let v = trunk_point(horizontal, along, t);
        match fl.clear(u, v, Some(e.p)) {
            None => Leg::Blocked,
            Some(n) => {
                let cost: i128 = abs_i(t - across) as i128 + 20 * (n as i128);
                Leg::Wire(two(u, v), cost, along)
            },
        }
    } else {
        let m: i64 = along + 2 * side;
        let u = trunk_point(horizontal, along, across);
        let v = trunk_point(horizontal, m, across);
        let w = trunk_point(horizontal, m, t);
        match (fl.clear(u, v, Some(e.p)), fl.clear(v, w, None)) {
            (Some(a), Some(b)) => {
                let mut p = two(u, v);
                p.push(w);
                assert(p@ =~= seq![u, v, w]);
                let cost: i128 = 8 + abs_i(t - across) as i128 + 20 * (a as i128 + b as i128);
                Leg::Wire(p, cost, m)
            },
            _ => Leg::Blocked,
        }
    }
}

/// Wires and score of one trunk.
#[derive(Debug)]
pub struct Trunk {
    pub paths: Vec<Vec<Pt>>,
    pub score: i128,
}

pub open spec fn paths_ok(p: Seq<Seq<Pt>>) -> bool {
    forall|i: int| 0 <= i < p.len() ==> router::wire_path(#[trigger] p[i])
}

pub open spec fn lines_v(v: Seq<i64>) -> Seq<int> {
    Seq::new(v.len(), |i: int| v[i] as int)
}

fn trunk_at(fl: &Field, ends: &Vec<End>, t: i64, horizontal: bool) -> (r: Option<Trunk>)
    requires
        fl.wf(),
        trunk_line_ok(t as int),
        ends@.len() <= 0x100_0000_0000,
        forall|i: int|
            0 <= i < ends@.len() ==> symlib::tip_pt((#[trigger] ends@[i]).pos) && geom::is_dir(
                ends@[i].d,
            ),
    ensures
        match r {
            Some(x) => trunk_spec(fl@, ends@, t as int, horizontal) == Some(
                (geo::paths_v(x.paths@), x.score as int),
            ) && paths_ok(geo::paths_v(x.paths@)),
            None => trunk_spec(fl@, ends@, t as int, horizontal) is None,
        },
{
    let mut paths: Vec<Vec<Pt>> = Vec::new();
    let mut total: i128 = 0;
    let mut on: Vec<i64> = Vec::new();
    let mut i: usize = 0;
    assert(geo::paths_v(paths@) =~= Seq::empty());
    assert(lines_v(on@) =~= Seq::empty());
    while i < ends.len()
        invariant
            i <= ends@.len(),
            fl.wf(),
            trunk_line_ok(t as int),
            ends@.len() <= 0x100_0000_0000,
            forall|i: int|
                0 <= i < ends@.len() ==> symlib::tip_pt((#[trigger] ends@[i]).pos) && geom::is_dir(
                    ends@[i].d,
                ),
            paths_ok(geo::paths_v(paths@)),
            forall|j: int| 0 <= j < on@.len() ==> trunk_line_ok(#[trigger] on@[j] as int),
            0 <= total <= i * 0x100_0000_0000_0000_0000,
            paths@.len() <= i,
            legs_spec(fl@, ends@, t as int, horizontal, i as int) == Some(
                (geo::paths_v(paths@), total as int, lines_v(on@)),
            ),
        decreases ends@.len() - i,
    {
        let ghost p0 = geo::paths_v(paths@);
        let ghost o0 = lines_v(on@);
        match leg(fl, &ends[i], t, horizontal) {
            Leg::Blocked => {
                proof {
                    lemma_legs_none(fl@, ends@, t as int, horizontal, i + 1, ends@.len() as int);
                }
                return None;
            },
            Leg::On(a) => {
                on.push(a);
                assert(lines_v(on@) =~= o0.push(a as int));
            },
            Leg::Wire(p, c, a) => {
                let ghost pv = p@;
                paths.push(p);
                total = total + c;
                on.push(a);
                assert(lines_v(on@) =~= o0.push(a as int));
                assert(geo::paths_v(paths@) =~= p0.push(pv));
            },
        }
        i += 1;
    }
    if on.len() < 2 {
        assert(lines_v(on@).len() < 2);
        return None;
    }
    let mut a: i64 = on[0];
    let mut b: i64 = on[0];
    let mut k: usize = 1;
    assert(lines_v(on@).take(1)[0] == on@[0]);
    while k < on.len()
        invariant
            1 <= k <= on@.len(),
            trunk_line_ok(a as int),
            trunk_line_ok(b as int),
            forall|j: int| 0 <= j < on@.len() ==> trunk_line_ok(#[trigger] on@[j] as int),
            a == least(lines_v(on@).take(k as int)),
            b == greatest(lines_v(on@).take(k as int)),
        decreases on@.len() - k,
    {
        assert(lines_v(on@).take(k + 1).drop_last() =~= lines_v(on@).take(k as int));
        a = min_i(a, on[k]);
        b = max_i(b, on[k]);
        k += 1;
    }
    assert(lines_v(on@).take(k as int) =~= lines_v(on@));
    if b - a > 0 {
        let u = trunk_point(horizontal, a, t);
        let v = trunk_point(horizontal, b, t);
        match fl.clear(u, v, None) {
            None => return None,
            Some(n) => {
                let ghost p0 = geo::paths_v(paths@);
                let q = two(u, v);
                let ghost qv = q@;
                paths.push(q);
                assert(geo::paths_v(paths@) =~= p0.push(qv));
                total = total + (b - a) as i128 + 20 * (n as i128);
            },
        }
    }
    let score: i128 = total + 3 * (paths.len() as i128);
    Some(Trunk { paths, score })
}

proof fn lemma_legs_none(fl: FieldV, ends: Seq<End>, t: int, horizontal: bool, i: int, n: int)
    requires
        0 <= i <= n,
        legs_spec(fl, ends, t, horizontal, i) is None,
    ensures
        legs_spec(fl, ends, t, horizontal, n) is None,
    decreases n,
{
    if n > i {
        lemma_legs_none(fl, ends, t, horizontal, i, n - 1);
    }
}

pub open spec fn ends_plain(ends: Seq<End>) -> bool {
    forall|i: int|
        0 <= i < ends.len() ==> symlib::tip_pt((#[trigger] ends[i]).pos) && geom::is_dir(ends[i].d)
}

pub open spec fn lines_ok(v: Seq<i64>) -> bool {
    forall|i: int| 0 <= i < v.len() ==> trunk_line_ok(#[trigger] v[i] as int)
}

fn lines_to_try(ends: &Vec<End>, horizontal: bool) -> (r: Vec<i64>)
    requires
        ends_plain(ends@),
        ends@.len() <= 0x100_0000,
    ensures
        r@ == trunk_lines(ends@, horizontal),
        lines_ok(r@),
{
    let ghost pl = pin_lines(ends@, horizontal);
    let mut lines: Vec<i64> = Vec::new();
    let mut keys: Vec<(i64, i64, i64)> = Vec::new();
    let ghost kv = Seq::new(pl.len(), |i: int| (pl[i], 0i64, 0i64));
    let mut i: usize = 0;
    while i < ends.len()
        invariant
            i <= ends@.len(),
            ends_plain(ends@),
            pl == pin_lines(ends@, horizontal),
            kv == Seq::new(pl.len(), |i: int| (pl[i], 0i64, 0i64)),
            lines@ == pl.take(i as int),
            keys@ == kv.take(i as int),
            lines_ok(lines@),
        decreases ends@.len() - i,
    {
        let c = cell_of(ends[i].pos);
        let q: i64 = if horizontal { c.y } else { c.x };
        proof {
            assert(pl.take(i + 1) =~= pl.take(i as int).push(pl[i as int]));
            assert(kv.take(i + 1) =~= kv.take(i as int).push(kv[i as int]));
        }
        lines.push(q);
        keys.push((q, 0, 0));
        i += 1;
    }
    assert(pl.take(i as int) =~= pl);
    assert(kv.take(i as int) =~= kv);
    let o = order_by_key(&keys);
    let mut raw: Vec<i64> = Vec::new();
    let ghost sl = sorted_lines(pl);
    let mut j: usize = 0;
    while j < o.len()
        invariant
            j <= o@.len(),
            o@.len() == pl.len(),
            lines@ == pl,
            lines_ok(lines@),
            kv == Seq::new(pl.len(), |i: int| (pl[i], 0i64, 0i64)),
            order::as_ints(o@) == order::by_key(kv),
            sl == sorted_lines(pl),
            forall|i: int| 0 <= i < o@.len() ==> #[trigger] o@[i] < pl.len(),
            raw@ == sl.take(j as int),
            lines_ok(raw@),
        decreases o@.len() - j,
    {
        proof {
            assert(order::as_ints(o@)[j as int] == o@[j as int]);
            assert(sl.take(j + 1) =~= sl.take(j as int).push(sl[j as int]));
            assert(trunk_line_ok(lines@[o@[j as int] as int] as int));
        }
        raw.push(lines[o[j]]);
        j += 1;
    }
    assert(sl.take(j as int) =~= sl);
    let mut k: usize = 0;
    assert(raw@ =~= sl + tries_of(ends@, horizontal, 0));
    while k < ends.len()
        invariant
            k <= ends@.len(),
            ends_plain(ends@),
            ends@.len() <= 0x100_0000,
            raw@.len() <= ends@.len() + 8 * k,
            lines_ok(raw@),
            raw@ == sl + tries_of(ends@, horizontal, k as int),
        decreases ends@.len() - k,
    {
        let c = cell_of(ends[k].pos);
        let q: i64 = if horizontal { c.y } else { c.x };
        let toward: i64 = if horizontal { ends[k].d.1 as i64 } else { ends[k].d.0 as i64 };
        let ghost r0 = raw@;
        raw.push(q + toward * 2);
        raw.push(q + toward * 4);
        raw.push(q + toward * 6);
        raw.push(q + toward * 8);
        if toward == 0 {
            raw.push(q - 6);
            raw.push(q - 4);
            raw.push(q + 4);
            raw.push(q + 6);
        }
        proof {
            assert(raw@ =~= r0 + pin_tries(ends@[k as int], horizontal));
            assert(raw@ =~= sl + tries_of(ends@, horizontal, k + 1));
        }
        k += 1;
    }
    let d = engine::uniq(&raw);
    proof {
        assert forall|i: int| 0 <= i < d@.len() implies trunk_line_ok(#[trigger] d@[i] as int) by {
            assert(raw@.contains(d@[i]));
            let x = choose|x: int| 0 <= x < raw@.len() && raw@[x] == d@[i];
            assert(trunk_line_ok(raw@[x] as int));
        }
    }
    let r = engine::py_int_set_order(&d);
    proof {
        assert forall|i: int| 0 <= i < r@.len() implies trunk_line_ok(#[trigger] r@[i] as int) by {
            assert(d@.contains(r@[i]));
            let x = choose|x: int| 0 <= x < d@.len() && d@[x] == r@[i];
            assert(trunk_line_ok(d@[x] as int));
        }
    }
    r
}

pub open spec fn trunk_v(t: Option<Trunk>) -> Option<(Seq<Seq<Pt>>, int)> {
    match t {
        Some(x) => Some((geo::paths_v(x.paths@), x.score as int)),
        None => None,
    }
}

fn try_lines(fl: &Field, ends: &Vec<End>, lines: &Vec<i64>, horizontal: bool, best: Option<Trunk>) -> (r:
    Option<Trunk>)
    requires
        fl.wf(),
        ends_plain(ends@),
        ends@.len() <= 0x100_0000,
        lines_ok(lines@),
        best matches Some(x) ==> paths_ok(geo::paths_v(x.paths@)),
    ensures
        trunk_v(r) == best_trunk(
            fl@,
            ends@,
            lines@,
            horizontal,
            lines@.len() as int,
            trunk_v(best),
        ),
        r matches Some(x) ==> paths_ok(geo::paths_v(x.paths@)),
{
    let ghost b0 = trunk_v(best);
    let mut best = best;
    let mut i: usize = 0;
    while i < lines.len()
        invariant
            i <= lines@.len(),
            fl.wf(),
            ends_plain(ends@),
            ends@.len() <= 0x100_0000,
            lines_ok(lines@),
            best matches Some(x) ==> paths_ok(geo::paths_v(x.paths@)),
            trunk_v(best) == best_trunk(fl@, ends@, lines@, horizontal, i as int, b0),
        decreases lines@.len() - i,
    {
        assert(trunk_line_ok(lines@[i as int] as int));
        match trunk_at(fl, ends, lines[i], horizontal) {
            None => {},
            Some(t) => {
                let better = match &best {
                    Some(x) => t.score < x.score,
                    None => true,
                };
                if better {
                    best = Some(t);
                }
            },
        }
        i += 1;
    }
    best
}

impl Frame {
    fn field(&self, st: &Drawn) -> (r: Field)
        requires
            self.wf(),
            st.wf(),
        ensures
            r.wf(),
            r@ == field_of(*self, st@),
    {
        let mut boxes: Vec<(usize, BBox)> = Vec::new();
        let mut i: usize = 0;
        assert(owned(boxes@) =~= Seq::empty());
        while i < self.parts.len()
            invariant
                i <= self.parts@.len(),
                self.wf(),
                forall|i: int|
                    0 <= i < boxes@.len() ==> geom::box_ok((#[trigger] boxes@[i]).1),
                owned(boxes@) == flat_boxes(*self, i as int),
            decreases self.parts@.len() - i,
        {
            assert(self.parts@[i as int].wf());
            let bs = self.parts[i].boxes(false);
            assert(bs@ == self.boxes_of(i as int));
            let ghost o0 = owned(boxes@);
            let mut k: usize = 0;
            assert(owned(boxes@) =~= o0 + Seq::new(0, |j: int| (i as int, bs@[j])));
            while k < bs.len()
                invariant
                    k <= bs@.len(),
                    engine::boxes_ok(bs@),
                    forall|i: int|
                        0 <= i < boxes@.len() ==> geom::box_ok((#[trigger] boxes@[i]).1),
                    owned(boxes@) == o0 + Seq::new(k as nat, |j: int| (i as int, bs@[j])),
                decreases bs@.len() - k,
            {
                assert(geom::box_ok(bs@[k as int]));
                let ghost x0 = owned(boxes@);
                boxes.push((i, bs[k]));
                assert(owned(boxes@) =~= x0.push((i as int, bs@[k as int])));
                assert(owned(boxes@) =~= o0 + Seq::new((k + 1) as nat, |j: int| (i as int, bs@[j])));
                k += 1;
            }
            proof {
                let b = self.boxes_of(i as int);
                assert(owned(boxes@) =~= o0 + Seq::new(b.len(), |j: int| (i as int, b[j])));
            }
            i += 1;
        }
        let mut segs: Vec<(Pt, Pt)> = Vec::new();
        let mut w: usize = 0;
        while w < st.wires.len()
            invariant
                w <= st.wires@.len(),
                st.wf(),
                wire_segs(segs@),
                segs@ == all_segs(st@.wires, w as int),
            decreases st.wires@.len() - w,
        {
            assert(st@.wires[w as int] == st.wires@[w as int]@);
            push_segs(&mut segs, &st.wires[w]);
            w += 1;
        }
        Field { boxes, segs }
    }

    fn route_trunk(&self, st: &Drawn, ends: &Vec<End>) -> (r: Option<Vec<Vec<Pt>>>)
        requires
            self.wf(),
            st.wf(),
            ends_plain(ends@),
            ends@.len() <= 0x100_0000,
        ensures
            match r {
                Some(p) => route_trunk_spec(*self, st@, ends@) == Some(geo::paths_v(p@))
                    && paths_ok(geo::paths_v(p@)),
                None => route_trunk_spec(*self, st@, ends@) is None,
            },
    {
        let fl = self.field(st);
        let h = lines_to_try(ends, true);
        let v = lines_to_try(ends, false);
        let a = try_lines(&fl, ends, &h, true, None);
        match try_lines(&fl, ends, &v, false, a) {
            Some(t) => Some(t.paths),
            None => None,
        }
    }
}

/// The boxes of the first `n` parts.
pub open spec fn part_walls(f: Frame, n: int) -> Seq<BBox>
    decreases n,
{
    if n <= 0 {
        Seq::empty()
    } else {
        part_walls(f, n - 1) + f.boxes_of(n - 1)
    }
}

/// The reserved zones, of the first `n`, that wires of the net keep out of.
pub open spec fn zone_walls(z: Seq<(BBox, Option<Seq<char>>)>, net: Seq<char>, n: int) -> Seq<BBox>
    decreases n,
{
    if n <= 0 {
        Seq::empty()
    } else if z[n - 1].1 == Some(net) {
        zone_walls(z, net, n - 1)
    } else {
        zone_walls(z, net, n - 1).push(z[n - 1].0)
    }
}

/// Segments of the allowed wires among the first `n` of a net's list, each with its place there.
pub open spec fn join_segs(ws: Seq<Seq<Pt>>, l: Seq<usize>, allowed: Seq<usize>, n: int) -> Seq<
    (usize, Pt, Pt),
>
    decreases n,
{
    if n <= 0 {
        Seq::empty()
    } else {
        let r = join_segs(ws, l, allowed, n - 1);
        let w = ws[l[n - 1] as int];
        let s = segs_of(w, w.len() - 1);
        if allowed.contains((n - 1) as usize) {
            r + Seq::new(s.len(), |k: int| ((n - 1) as usize, s[k].0, s[k].1))
        } else {
            r
        }
    }
}

/// Segments of the wires, of the first `n`, that the list does not name.
pub open spec fn foreign_segs(ws: Seq<Seq<Pt>>, l: Seq<usize>, n: int) -> Seq<(Pt, Pt)>
    decreases n,
{
    if n <= 0 {
        Seq::empty()
    } else if l.contains((n - 1) as usize) {
        foreign_segs(ws, l, n - 1)
    } else {
        foreign_segs(ws, l, n - 1) + segs_of(ws[n - 1], ws[n - 1].len() - 1)
    }
}

/// What the search for a wire between two pins of a net runs in.
pub open spec fn arena_spec(
    f: Frame,
    st: DrawnV,
    a: End,
    b: End,
    allowed: Seq<usize>,
    net: Seq<char>,
) -> router::ArenaV {
    let l = wires_of(st, net);
    router::ArenaV {
        a: router::cell_of_spec(a.pos),
        b: router::cell_of_spec(b.pos),
        da: router::code_of(a.d),
        db: router::code_of(b.d),
        boxes: part_walls(f, f.parts@.len() as int) + zone_walls(
            st.reserved,
            net,
            st.reserved.len() as int,
        ),
        joins: join_segs(st.wires, l, allowed, l.len() as int),
        others: foreign_segs(st.wires, l, st.wires.len() as int),
    }
}

/// The net touches a part of that id with more than three pins.
pub open spec fn touches_big(f: Frame, lst: Seq<(usize, usize)>, id: Seq<char>) -> bool {
    exists|i: int|
        0 <= i < lst.len() && f.parts@[(#[trigger] lst[i]).0 as int].pins@.len() > 3
            && f.parts@[lst[i].0 as int].id@ == id
}

/// Signal nets, of the first `n`, between big parts of the two ids.
pub open spec fn shared_nets(f: Frame, x: Seq<char>, y: Seq<char>, n: int) -> int
    decreases n,
{
    if n <= 0 {
        0
    } else {
        shared_nets(f, x, y, n - 1) + (if touches_big(f, f.signal_nets.vals@[n - 1]@, x)
            && touches_big(f, f.signal_nets.vals@[n - 1]@, y) {
            1int
        } else {
            0
        })
    }
}

/// Two big parts that share four signal nets or more: those get labels, not a bundle of wires.
pub open spec fn bus_pair(f: Frame, a: usize, b: usize) -> bool {
    let (x, y) = (f.parts@[a as int].id@, f.parts@[b as int].id@);
    x != y && shared_nets(f, x, y, f.signal_nets.vals@.len() as int) >= 4
}

pub open spec fn any_bus(f: Frame, ends: Seq<End>) -> bool {
    exists|i: int, j: int|
        0 <= i < ends.len() && 0 <= j < ends.len() && i != j && bus_pair(
            f,
            (#[trigger] ends[i]).p,
            (#[trigger] ends[j]).p,
        )
}

/// The wiring of one net under way: the drawing, the class of connected pins that each pin belongs
/// to, and for each wire of the net the pin it started from.
#[verifier::ext_equal]
pub struct NetV {
    pub st: DrawnV,
    pub comp: Seq<int>,
    pub owner: Seq<int>,
}

/// The classes after those of `i` and `j` became one.
pub open spec fn link(comp: Seq<int>, i: int, j: int) -> Seq<int> {
    Seq::new(comp.len(), |k: int| if comp[k] == comp[i] { comp[j] } else { comp[k] })
}

pub open spec fn with_net_wire(st: DrawnV, net: Seq<char>, path: Seq<Pt>) -> DrawnV {
    DrawnV {
        wires: st.wires.push(path),
        net_wires: order_map::push_to(st.net_wires, net, st.wires.len() as usize),
        ..st
    }
}

pub open spec fn with_wired(st: DrawnV, k: PinKey) -> DrawnV {
    DrawnV { wired: st.wired.insert(k), ..st }
}

/// The wires of the net that belong to the class of pin `j`, among the first `n`.
pub open spec fn targets(comp: Seq<int>, owner: Seq<int>, j: int, n: int) -> Seq<usize>
    decreases n,
{
    if n <= 0 {
        Seq::empty()
    } else if comp[owner[n - 1]] == comp[j] {
        targets(comp, owner, j, n - 1).push((n - 1) as usize)
    } else {
        targets(comp, owner, j, n - 1)
    }
}

/// A found wire is drawn and its ends count as wired.
pub open spec fn commit(
    f: Frame,
    ns: NetV,
    net: Seq<char>,
    ends: Seq<End>,
    i: int,
    j: int,
    path: Seq<Pt>,
    joined: Option<usize>,
) -> NetV {
    let s1 = with_wired(with_net_wire(ns.st, net, path), f.key_spec(ends[i]));
    match joined {
        None => NetV {
            st: with_wired(s1, f.key_spec(ends[j])),
            comp: link(ns.comp, i, j),
            owner: ns.owner.push(i),
        },
        Some(w) => NetV {
            st: s1,
            comp: link(ns.comp, i, ns.owner[w as int]),
            owner: ns.owner.push(i),
        },
    }
}

/// Another pin of the part lies strictly between two of its pins on one line.
pub open spec fn pin_between(f: Frame, a: End, b: End) -> bool {
    let p = f.parts@[a.p as int];
    exists|q: int|
        0 <= q < p.pins@.len() && q != a.pin && q != b.pin && lies_between(
            p.pos_spec(#[trigger] p.pins@[q]),
            a.pos,
            b.pos,
        )
}

pub open spec fn lies_between(q: Pt, a: Pt, b: Pt) -> bool {
    ||| a.x == b.x && q.x == a.x && geom::strictly_between(q.y as int, a.y as int, b.y as int)
    ||| a.y == b.y && q.y == a.y && geom::strictly_between(q.x as int, a.x as int, b.x as int)
}

/// Two pins on one side of one part, with nothing between: their tips are bridged directly.
pub open spec fn bridges(f: Frame, a: End, b: End) -> bool {
    &&& a.p == b.p
    &&& a.d == b.d
    &&& a.pos.x == b.pos.x || a.pos.y == b.pos.y
    &&& !pin_between(f, a, b)
}

/// Whether a pair is considered at all: bus pairs are labelled, and a decoupling part is wired to
/// its supply only along a short horizontal rail.
pub open spec fn pair_kept(f: Frame, ends: Seq<End>, supply: bool, i: int, j: int) -> bool {
    let (a, b) = (ends[i], ends[j]);
    &&& supply ==> ((geom::manhattan(a.pos, b.pos) <= 1_016_000 && geom::mag(a.pos.y - b.pos.y)
        < 1270) || !(f.parts@[a.p as int].power_only || f.parts@[b.p as int].power_only))
    &&& !bus_pair(f, a.p, b.p)
}

/// The wiring after the pair `i`, `j` has been tried.
pub open spec fn pair_spec(
    f: Frame,
    ns: NetV,
    net: Seq<char>,
    ends: Seq<End>,
    supply: bool,
    i: int,
    j: int,
) -> NetV {
    let dist = geom::manhattan(ends[i].pos, ends[j].pos);
    let limit = f.max_wire as int;
    let allowed = targets(ns.comp, ns.owner, j, ns.owner.len() as int);
    let e = arena_spec(f, ns.st, ends[i], ends[j], allowed, net);
    let long = if limit < dist && 5 * dist <= 9 * limit && !supply && f.long_simple {
        router::found_wire(e, true)
    } else {
        None
    };
    if !pair_kept(f, ends, supply, i, j) || ns.comp[i] == ns.comp[j] {
        ns
    } else {
        match long {
            Some(r) => commit(f, ns, net, ends, i, j, r.0, r.1),
            None => if dist > limit {
                ns
            } else if dist == 0 {
                NetV {
                    st: with_wired(with_wired(ns.st, f.key_spec(ends[i])), f.key_spec(ends[j])),
                    comp: link(ns.comp, i, j),
                    owner: ns.owner,
                }
            } else if bridges(f, ends[i], ends[j]) {
                commit(f, ns, net, ends, i, j, seq![ends[i].pos, ends[j].pos], None)
            } else {
                match router::found_wire(e, false) {
                    None => ns,
                    Some(r) => commit(f, ns, net, ends, i, j, r.0, r.1),
                }
            },
        }
    }
}

/// The pairs `(i, j)`, `(i, j + 1)` and so on, each with its distance.
pub open spec fn pairs_from(ends: Seq<End>, i: int, j: int) -> Seq<(i64, i64, i64)>
    decreases ends.len() - i, ends.len() - j,
{
    if i < 0 || i >= ends.len() {
        Seq::empty()
    } else if j >= ends.len() {
        pairs_from(ends, i + 1, i + 2)
    } else {
        seq![(geom::manhattan(ends[i].pos, ends[j].pos) as i64, i as i64, j as i64)] + pairs_from(
            ends,
            i,
            j + 1,
        )
    }
}

/// All pairs of pins, the nearest first.
pub open spec fn nearest_pairs(ends: Seq<End>) -> Seq<(i64, i64, i64)> {
    let p = pairs_from(ends, 0, 1);
    let o = order::by_key(p);
    Seq::new(p.len(), |k: int| p[o[k]])
}

/// The wiring after the first `n` pairs.
pub open spec fn pairs_spec(
    f: Frame,
    ns: NetV,
    net: Seq<char>,
    ends: Seq<End>,
    supply: bool,
    ps: Seq<(i64, i64, i64)>,
    n: int,
) -> NetV
    decreases n,
{
    if n <= 0 {
        ns
    } else {
        pair_spec(
            f,
            pairs_spec(f, ns, net, ends, supply, ps, n - 1),
            net,
            ends,
            supply,
            ps[n - 1].1 as int,
            ps[n - 1].2 as int,
        )
    }
}

/// The first `n` wires of a trunk are drawn.
pub open spec fn trunk_wires(ns: NetV, net: Seq<char>, paths: Seq<Seq<Pt>>, n: int) -> NetV
    decreases n,
{
    if n <= 0 {
        ns
    } else {
        let r = trunk_wires(ns, net, paths, n - 1);
        NetV { st: with_net_wire(r.st, net, paths[n - 1]), comp: r.comp, owner: r.owner.push(0) }
    }
}

/// The first `n` pins count as wired and as one class with the first pin.
pub open spec fn trunk_pins(f: Frame, ns: NetV, ends: Seq<End>, n: int) -> NetV
    decreases n,
{
    if n <= 0 {
        ns
    } else {
        let r = trunk_pins(f, ns, ends, n - 1);
        NetV {
            st: with_wired(r.st, f.key_spec(ends[n - 1])),
            comp: link(r.comp, n - 1, 0),
            owner: r.owner,
        }
    }
}

/// Extent of the pins along both axes, summed.
pub open spec fn span_spec(ends: Seq<End>, n: int) -> (int, int, int, int)
    decreases n,
{
    if n <= 1 {
        let p = ends[0].pos;
        (p.x as int, p.x as int, p.y as int, p.y as int)
    } else {
        let r = span_spec(ends, n - 1);
        let p = ends[n - 1].pos;
        (
            geom::lo(r.0, p.x as int),
            geom::hi(r.1, p.x as int),
            geom::lo(r.2, p.y as int),
            geom::hi(r.3, p.y as int),
        )
    }
}

/// Whether a net is tried as a trunk: a signal of three pins or more, close together, no bus.
pub open spec fn wants_trunk(f: Frame, ends: Seq<End>, supply: bool) -> bool {
    let s = span_spec(ends, ends.len() as int);
    ends.len() >= 3 && !supply && (s.1 - s.0) + (s.3 - s.2) <= geom::hi(
        5_588_000,
        f.max_wire + 508_000,
    ) && !any_bus(f, ends)
}

/// The wiring of the net's pins, before labels and symbols.
pub open spec fn wired_net(f: Frame, st: DrawnV, net: Seq<char>, ends: Seq<End>, supply: bool) -> NetV {
    let s0 = NetV {
        st,
        comp: Seq::new(ends.len(), |i: int| i),
        owner: Seq::empty(),
    };
    let s1 = if wants_trunk(f, ends, supply) {
        match route_trunk_spec(f, st, ends) {
            Some(p) => trunk_pins(
                f,
                trunk_wires(s0, net, p, p.len() as int),
                ends,
                ends.len() as int,
            ),
            None => s0,
        }
    } else {
        s0
    };
    let ps = nearest_pairs(ends);
    pairs_spec(f, s1, net, ends, supply, ps, ps.len() as int)
}

/// The pin is the first of its class.
pub open spec fn leads(comp: Seq<int>, i: int) -> bool {
    forall|k: int| 0 <= k < i ==> #[trigger] comp[k] != comp[i]
}

/// Pins of the class of `i` among the first `n`.
pub open spec fn class_of(comp: Seq<int>, i: int, n: int) -> Seq<int>
    decreases n,
{
    if n <= 0 {
        Seq::empty()
    } else if comp[n - 1] == comp[i] {
        class_of(comp, i, n - 1).push(n - 1)
    } else {
        class_of(comp, i, n - 1)
    }
}

/// Classes among the first `n` pins.
pub open spec fn class_count(comp: Seq<int>, n: int) -> int
    decreases n,
{
    if n <= 0 {
        0
    } else {
        class_count(comp, n - 1) + (if leads(comp, n - 1) { 1int } else { 0 })
    }
}

pub open spec fn idx_below(m: Seq<(Seq<char>, Seq<usize>)>, n: int) -> bool {
    forall|i: int, j: int| 0 <= i < m.len() && 0 <= j < m[i].1.len() ==> #[trigger] m[i].1[j] < n
}

proof fn lemma_push_below(m: Seq<(Seq<char>, Seq<usize>)>, k: Seq<char>, x: usize, n: int)
    requires
        idx_below(m, n),
        x < n,
    ensures
        idx_below(order_map::push_to(m, k, x), n),
{
    order_map::lemma_seek(m, k, 0);
    let r = order_map::push_to(m, k, x);
    assert forall|i: int, j: int| 0 <= i < r.len() && 0 <= j < r[i].1.len() implies #[trigger] r[i].1[j]
        < n by {
        let at = order_map::seek(m, k, 0);
        if i == at && at < m.len() {
            if j < m[at].1.len() {
                assert(r[i].1[j] == m[at].1[j]);
            }
        } else if i < m.len() {
            assert(r[i] == m[i]);
            assert(m[i].1[j] < n);
        }
    }
}

impl Drawn {
    fn add_net_wire(&mut self, net: &str, path: Vec<Pt>)
        requires
            old(self).wf(),
            router::wire_path(path@),
        ensures
            final(self).wf(),
            final(self)@ == with_net_wire(old(self)@, net@, path@),
    {
        let ghost s0 = self@;
        let ghost pv = path@;
        let wi: usize = self.wires.len();
        self.wires.push(path);
        push_into(&mut self.net_wires, net, wi);
        proof {
            assert(geo::paths_v(self.wires@) =~= s0.wires.push(pv));
            assert(self@ =~= with_net_wire(s0, net@, pv));
            assert(idx_below(s0.net_wires, s0.wires.len() as int + 1)) by {
                assert forall|i: int, j: int|
                    0 <= i < s0.net_wires.len() && 0 <= j
                        < s0.net_wires[i].1.len() implies #[trigger] s0.net_wires[i].1[j]
                    < s0.wires.len() as int + 1 by {
                    assert(s0.net_wires[i].1[j] < s0.wires.len());
                }
            }
            lemma_push_below(s0.net_wires, net@, wi, s0.wires.len() as int + 1);
            assert(idx_below(self@.net_wires, self@.wires.len() as int));
        }
    }
}

fn holds_index(v: &Vec<usize>, x: usize) -> (r: bool)
    ensures
        r == v@.contains(x),
{
    let mut i: usize = 0;
    while i < v.len()
        invariant
            i <= v@.len(),
            forall|j: int| 0 <= j < i ==> v@[j] != x,
        decreases v@.len() - i,
    {
        if v[i] == x {
            assert(v@[i as int] == x);
            return true;
        }
        i += 1;
    }
    false
}

proof fn lemma_join_allowed(ws: Seq<Seq<Pt>>, l: Seq<usize>, allowed: Seq<usize>, n: int)
    ensures
        forall|i: int|
            0 <= i < join_segs(ws, l, allowed, n).len() ==> allowed.contains(
                (#[trigger] join_segs(ws, l, allowed, n)[i]).0,
            ),
    decreases n,
{
    if n > 0 {
        lemma_join_allowed(ws, l, allowed, n - 1);
        let r = join_segs(ws, l, allowed, n - 1);
        let t = join_segs(ws, l, allowed, n);
        assert forall|i: int| 0 <= i < t.len() implies allowed.contains((#[trigger] t[i]).0) by {
            if i < r.len() {
                assert(t[i] == r[i]);
            }
        }
    }
}

proof fn lemma_targets(comp: Seq<int>, owner: Seq<int>, j: int, n: int)
    requires
        0 <= n <= usize::MAX,
    ensures
        forall|x: usize| targets(comp, owner, j, n).contains(x) ==> x < n,
    decreases n,
{
    if n > 0 {
        lemma_targets(comp, owner, j, n - 1);
        let r = targets(comp, owner, j, n - 1);
        let t = targets(comp, owner, j, n);
        assert forall|x: usize| t.contains(x) implies x < n by {
            let i = choose|i: int| 0 <= i < t.len() && t[i] == x;
            if i < r.len() {
                assert(r[i] == x);
                assert(r.contains(x));
            }
        }
    }
}

fn join_targets(comp: &Vec<usize>, owner: &Vec<usize>, j: usize) -> (r: Vec<usize>)
    requires
        j < comp@.len(),
        forall|i: int| 0 <= i < owner@.len() ==> #[trigger] owner@[i] < comp@.len(),
    ensures
        r@ == targets(
            order::as_ints(comp@),
            order::as_ints(owner@),
            j as int,
            owner@.len() as int,
        ),
{
    let ghost c = order::as_ints(comp@);
    let ghost o = order::as_ints(owner@);
    let mut r: Vec<usize> = Vec::new();
    let mut n: usize = 0;
    while n < owner.len()
        invariant
            n <= owner@.len(),
            j < comp@.len(),
            c == order::as_ints(comp@),
            o == order::as_ints(owner@),
            forall|i: int| 0 <= i < owner@.len() ==> #[trigger] owner@[i] < comp@.len(),
            r@ == targets(c, o, j as int, n as int),
        decreases owner@.len() - n,
    {
        let w: usize = owner[n];
        assert(w < comp@.len());
        assert(o[n as int] == w);
        if comp[w] == comp[j] {
            r.push(n);
        }
        n += 1;
    }
    r
}

impl Frame {
    fn arena(&self, st: &Drawn, a: &End, b: &End, allowed: &Vec<usize>, net: &str) -> (r: Arena)
        requires
            self.wf(),
            st.wf(),
            end_ok(*self, *a),
            end_ok(*self, *b),
        ensures
            r@ == arena_spec(*self, st@, *a, *b, allowed@, net@),
            r@.wf(),
    {
        let mut boxes: Vec<BBox> = Vec::new();
        let mut i: usize = 0;
        while i < self.parts.len()
            invariant
                i <= self.parts@.len(),
                self.wf(),
                engine::boxes_ok(boxes@),
                boxes@ == part_walls(*self, i as int),
            decreases self.parts@.len() - i,
        {
            assert(self.parts@[i as int].wf());
            let mut bs = self.parts[i].boxes(false);
            assert(bs@ == self.boxes_of(i as int));
            boxes.append(&mut bs);
            i += 1;
        }
        let ghost walls = boxes@;
        let key = net.to_owned();
        let mut z: usize = 0;
        assert(boxes@ =~= walls + zone_walls(st@.reserved, net@, 0));
        while z < st.reserved.len()
            invariant
                z <= st.reserved@.len(),
                st.wf(),
                key@ == net@,
                engine::boxes_ok(boxes@),
                boxes@ == walls + zone_walls(st@.reserved, net@, z as int),
            decreases st.reserved@.len() - z,
        {
            assert(geom::box_ok(st@.reserved[z as int].0));
            let mine = match &st.reserved[z].1 {
                Some(n) => *n == key,
                None => false,
            };
            if !mine {
                boxes.push(st.reserved[z].0);
            }
            z += 1;
            assert(boxes@ =~= walls + zone_walls(st@.reserved, net@, z as int));
        }
        let l = st.net_list(net);
        let mut joins: Vec<(usize, Pt, Pt)> = Vec::new();
        let mut n: usize = 0;
        while n < l.len()
            invariant
                n <= l@.len(),
                st.wf(),
                forall|i: int| 0 <= i < l@.len() ==> #[trigger] l@[i] < st.wires@.len(),
                forall|i: int|
                    0 <= i < joins@.len() ==> router::seg_ok((#[trigger] joins@[i]).1, joins@[i].2),
                joins@ == join_segs(st@.wires, l@, allowed@, n as int),
            decreases l@.len() - n,
        {
            let wi: usize = l[n];
            assert(wi < st.wires@.len());
            assert(st@.wires[wi as int] == st.wires@[wi as int]@);
            if holds_index(allowed, n) {
                let mut segs: Vec<(Pt, Pt)> = Vec::new();
                push_segs(&mut segs, &st.wires[wi]);
                let ghost w = st@.wires[wi as int];
                let ghost sv = segs_of(w, w.len() - 1);
                assert(segs@ =~= sv);
                let ghost j0 = joins@;
                let mut k: usize = 0;
                assert(joins@ =~= j0 + Seq::new(0, |q: int| (n, sv[q].0, sv[q].1)));
                while k < segs.len()
                    invariant
                        k <= segs@.len(),
                        segs@ == sv,
                        wire_segs(segs@),
                        forall|i: int|
                            0 <= i < joins@.len() ==> router::seg_ok(
                                (#[trigger] joins@[i]).1,
                                joins@[i].2,
                            ),
                        joins@ == j0 + Seq::new(k as nat, |q: int| (n, sv[q].0, sv[q].1)),
                    decreases segs@.len() - k,
                {
                    let sg: (Pt, Pt) = segs[k];
                    assert(symlib::wire_pt(segs@[k as int].0));
                    let ghost x0 = joins@;
                    joins.push((n, sg.0, sg.1));
                    assert(joins@ =~= x0.push((n, sv[k as int].0, sv[k as int].1)));
                    assert(joins@ =~= j0 + Seq::new(
                        (k + 1) as nat,
                        |q: int| (n, sv[q].0, sv[q].1),
                    ));
                    k += 1;
                }
                assert(joins@ =~= j0 + Seq::new(
                    sv.len(),
                    |q: int| ((n + 1 - 1) as usize, sv[q].0, sv[q].1),
                ));
            }
            n += 1;
        }
        let mut others: Vec<(Pt, Pt)> = Vec::new();
        let mut w: usize = 0;
        while w < st.wires.len()
            invariant
                w <= st.wires@.len(),
                st.wf(),
                wire_segs(others@),
                others@ == foreign_segs(st@.wires, l@, w as int),
            decreases st.wires@.len() - w,
        {
            assert(st@.wires[w as int] == st.wires@[w as int]@);
            if !holds_index(&l, w) {
                push_segs(&mut others, &st.wires[w]);
            }
            w += 1;
        }
        proof {
            assert forall|i: int| 0 <= i < others@.len() implies router::seg_ok(
                (#[trigger] others@[i]).0,
                others@[i].1,
            ) by {
                assert(symlib::wire_pt(others@[i].0));
            }
        }
        let r = Arena {
            a: cell_of(a.pos),
            b: cell_of(b.pos),
            da: dir_code(a.d),
            db: dir_code(b.d),
            boxes,
            joins,
            others,
        };
        assert(r@ =~= arena_spec(*self, st@, *a, *b, allowed@, net@));
        r
    }

    fn big_in(&self, lst: &Vec<(usize, usize)>, id: &String) -> (r: bool)
        requires
            refs_ok(self.parts@, lst@),
        ensures
            r == touches_big(*self, lst@, id@),
    {
        let mut i: usize = 0;
        while i < lst.len()
            invariant
                i <= lst@.len(),
                refs_ok(self.parts@, lst@),
                forall|j: int|
                    0 <= j < i ==> !(self.parts@[(#[trigger] lst@[j]).0 as int].pins@.len() > 3
                        && self.parts@[lst@[j].0 as int].id@ == id@),
            decreases lst@.len() - i,
        {
            let k: usize = lst[i].0;
            assert(lst@[i as int].0 < self.parts@.len());
            if self.parts[k].pins.len() > 3 && self.parts[k].id == *id {
                return true;
            }
            i += 1;
        }
        false
    }

    fn is_bus_pair(&self, a: usize, b: usize) -> (r: bool)
        requires
            self.wf(),
            a < self.parts@.len(),
            b < self.parts@.len(),
        ensures
            r == bus_pair(*self, a, b),
    {
        let x = &self.parts[a].id;
        let y = &self.parts[b].id;
        if *x == *y {
            return false;
        }
        let mut n: u64 = 0;
        let mut i: usize = 0;
        while i < self.signal_nets.vals.len()
            invariant
                i <= self.signal_nets.vals@.len(),
                self.wf(),
                n == shared_nets(*self, x@, y@, i as int),
                n <= i,
            decreases self.signal_nets.vals@.len() - i,
        {
            let l = &self.signal_nets.vals[i];
            assert(refs_ok(self.parts@, self.signal_nets.vals@[i as int]@));
            if self.big_in(l, x) && self.big_in(l, y) {
                n += 1;
            }
            i += 1;
        }
        n >= 4
    }

    fn has_bus(&self, ends: &Vec<End>) -> (r: bool)
        requires
            self.wf(),
            ends_ok(*self, ends@),
        ensures
            r == any_bus(*self, ends@),
    {
        let mut i: usize = 0;
        while i < ends.len()
            invariant
                i <= ends@.len(),
                self.wf(),
                ends_ok(*self, ends@),
                forall|a: int, b: int|
                    0 <= a < i && 0 <= b < ends@.len() && a != b ==> !bus_pair(
                        *self,
                        (#[trigger] ends@[a]).p,
                        (#[trigger] ends@[b]).p,
                    ),
            decreases ends@.len() - i,
        {
            let mut j: usize = 0;
            while j < ends.len()
                invariant
                    i < ends@.len(),
                    j <= ends@.len(),
                    self.wf(),
                    ends_ok(*self, ends@),
                    forall|b: int|
                        0 <= b < j && b != i ==> !bus_pair(
                            *self,
                            ends@[i as int].p,
                            (#[trigger] ends@[b]).p,
                        ),
                decreases ends@.len() - j,
            {
                assert(end_ok(*self, ends@[i as int]));
                assert(end_ok(*self, ends@[j as int]));
                if i != j && self.is_bus_pair(ends[i].p, ends[j].p) {
                    assert(bus_pair(*self, ends@[i as int].p, ends@[j as int].p));
                    return true;
                }
                j += 1;
            }
            i += 1;
        }
        false
    }

    fn is_pin_between(&self, a: &End, b: &End) -> (r: bool)
        requires
            self.wf(),
            end_ok(*self, *a),
            end_ok(*self, *b),
        ensures
            r == pin_between(*self, *a, *b),
    {
        let p = &self.parts[a.p];
        assert(self.parts@[a.p as int].wf());
        let mut q: usize = 0;
        while q < p.pins.len()
            invariant
                q <= p.pins@.len(),
                a.p < self.parts@.len(),
                *p == self.parts@[a.p as int],
                p.wf(),
                forall|j: int|
                    0 <= j < q && j != a.pin && j != b.pin ==> !lies_between(
                        p.pos_spec(#[trigger] p.pins@[j]),
                        a.pos,
                        b.pos,
                    ),
            decreases p.pins@.len() - q,
        {
            assert(symlib::pin_ok(p.pins@[q as int]));
            if q != a.pin && q != b.pin {
                let t = p.pin_pos(&p.pins[q]);
                let on_x = a.pos.x == b.pos.x && t.x == a.pos.x && min_i(a.pos.y, b.pos.y) < t.y && t.y
                    < max_i(a.pos.y, b.pos.y);
                let on_y = a.pos.y == b.pos.y && t.y == a.pos.y && min_i(a.pos.x, b.pos.x) < t.x && t.x
                    < max_i(a.pos.x, b.pos.x);
                if on_x || on_y {
                    assert(lies_between(p.pos_spec(p.pins@[q as int]), a.pos, b.pos));
                    return true;
                }
            }
            q += 1;
        }
        false
    }
}

/// Classes and wire owners of the net under way.
#[derive(Debug)]
pub struct Classes {
    pub comp: Vec<usize>,
    pub owner: Vec<usize>,
}

impl Classes {
    pub open spec fn ok(&self, n: int) -> bool {
        &&& self.comp@.len() == n
        &&& forall|i: int| 0 <= i < self.comp@.len() ==> #[trigger] self.comp@[i] < n
        &&& forall|i: int| 0 <= i < self.owner@.len() ==> #[trigger] self.owner@[i] < n
    }

    pub open spec fn net_v(&self, st: DrawnV) -> NetV {
        NetV { st, comp: order::as_ints(self.comp@), owner: order::as_ints(self.owner@) }
    }

    fn union(&mut self, i: usize, j: usize)
        requires
            old(self).ok(old(self).comp@.len() as int),
            i < old(self).comp@.len(),
            j < old(self).comp@.len(),
        ensures
            final(self).ok(old(self).comp@.len() as int),
            final(self).owner == old(self).owner,
            order::as_ints(final(self).comp@) == link(
                order::as_ints(old(self).comp@),
                i as int,
                j as int,
            ),
    {
        let a: usize = self.comp[i];
        let b: usize = self.comp[j];
        let ghost c0 = self.comp@;
        let ghost n = c0.len() as int;
        let mut k: usize = 0;
        assert(b < n);
        while k < self.comp.len()
            invariant
                k <= self.comp@.len(),
                self.comp@.len() == n,
                c0.len() == n,
                b < n,
                a == c0[i as int],
                b == c0[j as int],
                self.owner == old(self).owner,
                forall|q: int| 0 <= q < n ==> #[trigger] c0[q] < n,
                forall|q: int|
                    0 <= q < k ==> #[trigger] self.comp@[q] == (if c0[q] == a { b } else { c0[q] }),
                forall|q: int| k <= q < n ==> #[trigger] self.comp@[q] == c0[q],
            decreases n - k,
        {
            if self.comp[k] == a {
                self.comp.set(k, b);
            }
            k += 1;
        }
        assert(order::as_ints(self.comp@) =~= link(order::as_ints(c0), i as int, j as int));
    }
}

impl Frame {
    fn commit_wire(
        &self,
        st: &mut Drawn,
        cl: &mut Classes,
        net: &str,
        ends: &Vec<End>,
        i: usize,
        j: usize,
        path: Vec<Pt>,
        joined: Option<usize>,
    )
        requires
            self.wf(),
            old(st).wf(),
            old(cl).ok(ends@.len() as int),
            ends_ok(*self, ends@),
            i < ends@.len(),
            j < ends@.len(),
            router::wire_path(path@),
            joined matches Some(w) ==> w < old(cl).owner@.len(),
        ensures
            final(st).wf(),
            final(cl).ok(ends@.len() as int),
            final(cl).net_v(final(st)@) == commit(
                *self,
                old(cl).net_v(old(st)@),
                net@,
                ends@,
                i as int,
                j as int,
                path@,
                joined,
            ),
    {
        let ghost ns0 = cl.net_v(st@);
        let ghost pv = path@;
        assert(end_ok(*self, ends@[i as int]));
        assert(end_ok(*self, ends@[j as int]));
        st.add_net_wire(net, path);
        let ghost s1 = st@;
        self.mark(&mut st.wired_pins, &ends[i]);
        assert(st@ =~= with_wired(s1, self.key_spec(ends@[i as int])));
        let ghost s2 = st@;
        let target: usize = match joined {
            None => {
                self.mark(&mut st.wired_pins, &ends[j]);
                assert(st@ =~= with_wired(s2, self.key_spec(ends@[j as int])));
                j
            },
            Some(w) => {
                assert(cl.owner@[w as int] < ends@.len());
                assert(ns0.owner[w as int] == cl.owner@[w as int]);
                cl.owner[w]
            },
        };
        cl.union(i, target);
        let ghost o0 = cl.owner@;
        cl.owner.push(i);
        proof {
            assert(order::as_ints(cl.owner@) =~= order::as_ints(o0).push(i as int));
            assert(cl.net_v(st@) =~= commit(
                *self,
                ns0,
                net@,
                ends@,
                i as int,
                j as int,
                pv,
                joined,
            ));
        }
    }

    fn try_pair(
        &self,
        st: &mut Drawn,
        cl: &mut Classes,
        net: &str,
        ends: &Vec<End>,
        supply: bool,
        i: usize,
        j: usize,
    )
        requires
            self.wf(),
            old(st).wf(),
            old(cl).ok(ends@.len() as int),
            ends_ok(*self, ends@),
            i < ends@.len(),
            j < ends@.len(),
        ensures
            final(st).wf(),
            final(cl).ok(ends@.len() as int),
            final(cl).net_v(final(st)@) == pair_spec(
                *self,
                old(cl).net_v(old(st)@),
                net@,
                ends@,
                supply,
                i as int,
                j as int,
            ),
    {
        let ghost ns0 = cl.net_v(st@);
        let (a, b) = (ends[i], ends[j]);
        assert(end_ok(*self, ends@[i as int]));
        assert(end_ok(*self, ends@[j as int]));
        let dist: i64 = manhattan_dist(a.pos, b.pos);
        if supply && !((dist <= 1_016_000 && abs_i(a.pos.y - b.pos.y) < 1270) || !(
        self.parts[a.p].power_only || self.parts[b.p].power_only)) {
            return ;
        }
        if self.is_bus_pair(a.p, b.p) {
            return ;
        }
        if cl.comp[i] == cl.comp[j] {
            return ;
        }
        let limit: i64 = self.max_wire;
        let allowed = join_targets(&cl.comp, &cl.owner, j);
        let drawn_here: usize = cl.owner.len();
        proof {
            lemma_targets(ns0.comp, ns0.owner, j as int, drawn_here as int);
            let l = wires_of(st@, net@);
            lemma_join_allowed(st@.wires, l, allowed@, l.len() as int);
        }
        if limit < dist && 5 * dist <= 9 * limit && !supply && self.long_simple {
            let e = self.arena(st, &a, &b, &allowed, net);
            match e.find(true) {
                Some(r) => {
                    proof {
                        if let Some(w) = r.1 {
                            let q = choose|q: int| 0 <= q < e@.joins.len() && (#[trigger] e@.joins[q]).0 == w;
                            assert(allowed@.contains(w));
                        }
                    }
                    self.commit_wire(st, cl, net, ends, i, j, r.0, r.1);
                    return ;
                },
                None => {},
            }
        }
        if dist > limit {
            return ;
        }
        if dist == 0 {
            let ghost s0 = st@;
            self.mark(&mut st.wired_pins, &a);
            assert(st@ =~= with_wired(s0, self.key_spec(a)));
            let ghost s1 = st@;
            self.mark(&mut st.wired_pins, &b);
            assert(st@ =~= with_wired(s1, self.key_spec(b)));
            cl.union(i, j);
            return ;
        }
        if a.p == b.p && a.d.0 == b.d.0 && a.d.1 == b.d.1 && (a.pos.x == b.pos.x || a.pos.y
            == b.pos.y) && !self.is_pin_between(&a, &b) {
            let p = two(a.pos, b.pos);
            self.commit_wire(st, cl, net, ends, i, j, p, None);
            return ;
        }
        let e = self.arena(st, &a, &b, &allowed, net);
        match e.find(false) {
            Some(r) => {
                proof {
                    if let Some(w) = r.1 {
                        let q = choose|q: int| 0 <= q < e@.joins.len() && (#[trigger] e@.joins[q]).0 == w;
                        assert(allowed@.contains(w));
                    }
                }
                self.commit_wire(st, cl, net, ends, i, j, r.0, r.1);
            },
            None => {},
        }
    }
}

/// Positions within the ends, the first two numbers being a distance and the smaller position.
pub open spec fn pairs_ok(ps: Seq<(i64, i64, i64)>, n: int) -> bool {
    forall|k: int|
        0 <= k < ps.len() ==> 0 <= (#[trigger] ps[k]).1 < n && 0 <= ps[k].2 < n
}

fn all_pairs(ends: &Vec<End>) -> (r: Vec<(i64, i64, i64)>)
    requires
        ends_plain(ends@),
        ends@.len() <= 0x100_0000_0000,
    ensures
        r@ == pairs_from(ends@, 0, 1),
        pairs_ok(r@, ends@.len() as int),
{
    let n: usize = ends.len();
    let mut r: Vec<(i64, i64, i64)> = Vec::new();
    let mut i: usize = 0;
    assert(r@ + pairs_from(ends@, 0, 1) =~= pairs_from(ends@, 0, 1));
    while i < n
        invariant
            i <= n,
            n == ends@.len(),
            n <= 0x100_0000_0000,
            ends_plain(ends@),
            pairs_ok(r@, n as int),
            pairs_from(ends@, 0, 1) == r@ + pairs_from(ends@, i as int, i + 1),
        decreases n - i,
    {
        let mut j: usize = i + 1;
        while j < n
            invariant
                i < n,
                i + 1 <= j <= n,
                n == ends@.len(),
                n <= 0x100_0000_0000,
                ends_plain(ends@),
                pairs_ok(r@, n as int),
                pairs_from(ends@, 0, 1) == r@ + pairs_from(ends@, i as int, j as int),
            decreases n - j,
        {
            assert(symlib::tip_pt(ends@[i as int].pos));
            assert(symlib::tip_pt(ends@[j as int].pos));
            let d: i64 = manhattan_dist(ends[i].pos, ends[j].pos);
            let ghost r0 = r@;
            r.push((d, i as i64, j as i64));
            assert(r@ + pairs_from(ends@, i as int, j + 1) =~= r0 + (seq![
                (d, i as i64, j as i64),
            ] + pairs_from(ends@, i as int, j + 1)));
            j += 1;
        }
        i += 1;
    }
    assert(r@ + Seq::<(i64, i64, i64)>::empty() =~= r@);
    r
}

fn sorted_pairs(ends: &Vec<End>) -> (r: Vec<(i64, i64, i64)>)
    requires
        ends_plain(ends@),
        ends@.len() <= 0x100_0000_0000,
    ensures
        r@ == nearest_pairs(ends@),
        pairs_ok(r@, ends@.len() as int),
{
    let p = all_pairs(ends);
    let o = order_by_key(&p);
    let ghost want = nearest_pairs(ends@);
    let mut r: Vec<(i64, i64, i64)> = Vec::new();
    let mut k: usize = 0;
    while k < o.len()
        invariant
            k <= o@.len(),
            o@.len() == p@.len(),
            p@ == pairs_from(ends@, 0, 1),
            want == nearest_pairs(ends@),
            order::as_ints(o@) == order::by_key(p@),
            pairs_ok(p@, ends@.len() as int),
            forall|i: int| 0 <= i < o@.len() ==> #[trigger] o@[i] < p@.len(),
            r@ == want.take(k as int),
            pairs_ok(r@, ends@.len() as int),
        decreases o@.len() - k,
    {
        proof {
            assert(order::as_ints(o@)[k as int] == o@[k as int]);
            assert(want.take(k + 1) =~= want.take(k as int).push(want[k as int]));
            assert(0 <= p@[o@[k as int] as int].1);
        }
        r.push(p[o[k]]);
        k += 1;
    }
    assert(want.take(k as int) =~= want);
    r
}

fn span(ends: &Vec<End>) -> (r: i64)
    requires
        ends_plain(ends@),
        ends@.len() > 0,
    ensures
        ({
            let s = span_spec(ends@, ends@.len() as int);
            r == (s.1 - s.0) + (s.3 - s.2)
        }),
{
    assert(symlib::tip_pt(ends@[0].pos));
    let mut x0: i64 = ends[0].pos.x;
    let mut x1: i64 = ends[0].pos.x;
    let mut y0: i64 = ends[0].pos.y;
    let mut y1: i64 = ends[0].pos.y;
    let mut i: usize = 1;
    while i < ends.len()
        invariant
            1 <= i <= ends@.len(),
            ends_plain(ends@),
            symlib::tip(x0 as int),
            symlib::tip(x1 as int),
            symlib::tip(y0 as int),
            symlib::tip(y1 as int),
            (x0 as int, x1 as int, y0 as int, y1 as int) == span_spec(ends@, i as int),
        decreases ends@.len() - i,
    {
        let p: Pt = ends[i].pos;
        assert(symlib::tip_pt(ends@[i as int].pos));
        x0 = min_i(x0, p.x);
        x1 = max_i(x1, p.x);
        y0 = min_i(y0, p.y);
        y1 = max_i(y1, p.y);
        i += 1;
    }
    (x1 - x0) + (y1 - y0)
}

impl Frame {
    fn wire_net(&self, st: &mut Drawn, net: &str, ends: &Vec<End>, supply: bool) -> (cl: Classes)
        requires
            self.wf(),
            old(st).wf(),
            ends_ok(*self, ends@),
            1 <= ends@.len() <= 0x100_0000,
        ensures
            final(st).wf(),
            cl.ok(ends@.len() as int),
            cl.net_v(final(st)@) == wired_net(*self, old(st)@, net@, ends@, supply),
    {
        let ghost st0 = st@;
        let n: usize = ends.len();
        let mut comp: Vec<usize> = Vec::new();
        let mut i: usize = 0;
        while i < n
            invariant
                i <= n,
                n == ends@.len(),
                comp@.len() == i,
                forall|k: int| 0 <= k < i ==> comp@[k] == k,
            decreases n - i,
        {
            comp.push(i);
            i += 1;
        }
        let mut cl = Classes { comp, owner: Vec::new() };
        let ghost s0 = NetV {
            st: st0,
            comp: Seq::new(ends@.len(), |i: int| i),
            owner: Seq::empty(),
        };
        proof {
            assert(cl.net_v(st@) =~= s0);
            assert forall|i: int| 0 <= i < ends@.len() implies symlib::tip_pt(
                (#[trigger] ends@[i]).pos,
            ) && geom::is_dir(ends@[i].d) by {
                assert(end_ok(*self, ends@[i]));
            }
        }
        let most: i64 = max_i(5_588_000, self.max_wire + 508_000);
        if n >= 3 && !supply && span(ends) <= most && !self.has_bus(ends) {
            assert(wants_trunk(*self, ends@, supply));
            match self.route_trunk(st, ends) {
                Some(paths) => {
                    let mut paths = paths;
                    let ghost all = geo::paths_v(paths@);
                    let mut k: usize = 0;
                    while k < paths.len()
                        invariant
                            k <= paths@.len(),
                            n == ends@.len(),
                            n >= 1,
                            all == geo::paths_v(paths@),
                            paths_ok(all),
                            st.wf(),
                            cl.ok(n as int),
                            cl.net_v(st@) == trunk_wires(s0, net@, all, k as int),
                        decreases paths@.len() - k,
                    {
                        let p = dup_path(&paths[k]);
                        assert(all[k as int] == p@);
                        let ghost before = cl.net_v(st@);
                        st.add_net_wire(net, p);
                        cl.owner.push(0);
                        proof {
                            assert(order::as_ints(cl.owner@) =~= before.owner.push(0));
                            assert(cl.net_v(st@) =~= trunk_wires(s0, net@, all, k + 1));
                        }
                        k += 1;
                    }
                    let ghost s1 = trunk_wires(s0, net@, all, all.len() as int);
                    let mut q: usize = 0;
                    while q < n
                        invariant
                            q <= n,
                            n == ends@.len(),
                            n >= 1,
                            ends_ok(*self, ends@),
                            st.wf(),
                            cl.ok(n as int),
                            cl.net_v(st@) == trunk_pins(*self, s1, ends@, q as int),
                        decreases n - q,
                    {
                        assert(end_ok(*self, ends@[q as int]));
                        let ghost before = cl.net_v(st@);
                        self.mark(&mut st.wired_pins, &ends[q]);
                        assert(st@ =~= with_wired(before.st, self.key_spec(ends@[q as int])));
                        cl.union(q, 0);
                        proof {
                            assert(cl.net_v(st@) =~= trunk_pins(*self, s1, ends@, q + 1));
                        }
                        q += 1;
                    }
                },
                None => {},
            }
        }
        let ghost s2 = cl.net_v(st@);
        let ps = sorted_pairs(ends);
        let mut k: usize = 0;
        while k < ps.len()
            invariant
                k <= ps@.len(),
                self.wf(),
                n == ends@.len(),
                ends_ok(*self, ends@),
                pairs_ok(ps@, n as int),
                st.wf(),
                cl.ok(n as int),
                cl.net_v(st@) == pairs_spec(*self, s2, net@, ends@, supply, ps@, k as int),
            decreases ps@.len() - k,
        {
            let t: (i64, i64, i64) = ps[k];
            assert(0 <= ps@[k as int].1 < n && 0 <= ps@[k as int].2 < n);
            self.try_pair(st, &mut cl, net, ends, supply, t.1 as usize, t.2 as usize);
            k += 1;
        }
        cl
    }
}

/// Some pin of the class has the key of the given endpoint.
pub open spec fn class_has(f: Frame, ends: Seq<End>, members: Seq<int>, k: PinKey) -> bool {
    exists|m: int| 0 <= m < members.len() && f.key_spec(ends[#[trigger] members[m]]) == k
}

/// A segment with its length.
pub struct RunV {
    pub len: int,
    pub a: Pt,
    pub b: Pt,
}

/// The run `p` is preferred over `q`: longer or, of equal length, with the larger coordinates.
pub open spec fn longer(p: RunV, q: RunV) -> bool {
    ||| p.len > q.len
    ||| p.len == q.len && (p.a.x > q.a.x || (p.a.x == q.a.x && (p.a.y > q.a.y || (p.a.y == q.a.y && (
    p.b.x > q.b.x || (p.b.x == q.b.x && p.b.y > q.b.y))))))
}

/// The best horizontal run of at least four grid steps among the first `n` segments and `best`.
pub open spec fn best_run(s: Seq<(Pt, Pt)>, n: int, best: Option<RunV>) -> Option<RunV>
    decreases n,
{
    if n <= 0 {
        best
    } else {
        let b = best_run(s, n - 1, best);
        let (p, q) = s[n - 1];
        let r = RunV { len: geom::mag(p.x - q.x), a: p, b: q };
        if p.y == q.y && r.len >= 508_000 {
            match b {
                Some(x) if !longer(r, x) => b,
                _ => Some(r),
            }
        } else {
            b
        }
    }
}

/// The best run of the wires, of the first `n` of the net, that start in the class.
pub open spec fn class_run(
    f: Frame,
    ns: NetV,
    ends: Seq<End>,
    members: Seq<int>,
    l: Seq<usize>,
    n: int,
) -> Option<RunV>
    decreases n,
{
    if n <= 0 {
        None
    } else {
        let b = class_run(f, ns, ends, members, l, n - 1);
        let w = ns.st.wires[l[n - 1] as int];
        if class_has(f, ends, members, f.key_spec(ends[ns.owner[n - 1]])) {
            let s = segs_of(w, w.len() - 1);
            best_run(s, s.len() as int, b)
        } else {
            b
        }
    }
}

/// The first pin of the class, from position `m` on, that points up, else its first pin.
pub open spec fn upward_of(ends: Seq<End>, members: Seq<int>, m: int) -> int
    decreases members.len() - m,
{
    if m < 0 || m >= members.len() {
        members[0]
    } else if ends[members[m]].d == (0i32, -1i32) {
        members[m]
    } else {
        upward_of(ends, members, m + 1)
    }
}

pub open spec fn all_wired(f: Frame, st: DrawnV, ends: Seq<End>, members: Seq<int>) -> bool {
    forall|m: int|
        0 <= m < members.len() ==> st.wired.contains(f.key_spec(ends[#[trigger] members[m]]))
}

/// A fully wired class of a supply net gets one power symbol: on its best run, else at a pin.
pub open spec fn supply_class(f: Frame, ns: NetV, net: Seq<char>, ends: Seq<End>, lead: int) -> DrawnV {
    let members = class_of(ns.comp, lead, ends.len() as int);
    let l = wires_of(ns.st, net);
    let n = geom::lo(l.len() as int, ns.owner.len() as int);
    if members.len() == 1 || !all_wired(f, ns.st, ends, members) {
        ns.st
    } else {
        match class_run(f, ns, ends, members, l, n) {
            Some(r) => DrawnV {
                on_wire: ns.st.on_wire.push(
                    (net, Pt { x: middle(r.a.x as int, r.b.x as int) as i64, y: r.a.y }),
                ),
                ..ns.st
            },
            None => DrawnV {
                power_pins: ns.st.power_pins.insert(f.key_spec(ends[upward_of(ends, members, 0)])),
                ..ns.st
            },
        }
    }
}

/// The drawing after the classes led by the first `n` pins of a supply net.
pub open spec fn supply_spec(f: Frame, ns: NetV, net: Seq<char>, ends: Seq<End>, n: int) -> DrawnV
    decreases n,
{
    if n <= 0 {
        ns.st
    } else {
        let st = supply_spec(f, ns, net, ends, n - 1);
        if leads(ns.comp, n - 1) {
            supply_class(f, NetV { st, ..ns }, net, ends, n - 1)
        } else {
            st
        }
    }
}

/// Pin `a` of the class is tried for the label before pin `b`: unwired before wired, then the less
/// crowded.
pub open spec fn label_sooner(f: Frame, st: DrawnV, ends: Seq<End>, net: Seq<char>, a: int, b: int) -> bool {
    let wa = st.wired.contains(f.key_spec(ends[a]));
    let wb = st.wired.contains(f.key_spec(ends[b]));
    let ca = crowding_spec(f, st.wires, ends[a], net.len() as int);
    let cb = crowding_spec(f, st.wires, ends[b], net.len() as int);
    (!wa && wb) || (wa == wb && ca < cb)
}

/// The pins of the class, in the order in which they are tried for the label.
pub open spec fn label_order(f: Frame, st: DrawnV, ends: Seq<End>, net: Seq<char>, members: Seq<int>) -> Seq<
    int,
> {
    let o = order::ranked(
        |a: int, b: int| label_sooner(f, st, ends, net, members[a], members[b]),
        members.len() as int,
    );
    Seq::new(members.len(), |i: int| members[o[i]])
}

/// The drawing after the pins from position `i` on have been tried; the first is forced where none
/// takes a clear label.
pub open spec fn label_tries(f: Frame, st: DrawnV, ends: Seq<End>, net: Seq<char>, cand: Seq<int>, i: int) -> DrawnV
    decreases cand.len() - i,
{
    if i < 0 || i >= cand.len() {
        label_spec(f, st, ends[cand[0]], net, true).1
    } else {
        let r = label_spec(f, st, ends[cand[i]], net, false);
        if r.0 {
            r.1
        } else {
            label_tries(f, r.1, ends, net, cand, i + 1)
        }
    }
}

/// The drawing after the classes led by the first `n` pins got a label each.
pub open spec fn labels_spec(f: Frame, ns: NetV, net: Seq<char>, ends: Seq<End>, n: int) -> DrawnV
    decreases n,
{
    if n <= 0 {
        ns.st
    } else {
        let st = labels_spec(f, ns, net, ends, n - 1);
        if leads(ns.comp, n - 1) {
            let members = class_of(ns.comp, n - 1, ends.len() as int);
            label_tries(f, st, ends, net, label_order(f, st, ends, net, members), 0)
        } else {
            st
        }
    }
}

/// Pins of the net in the whole design.
pub open spec fn total_pins(v: Seq<(String, u64)>, net: Seq<char>, i: int) -> int
    decreases v.len() - i,
{
    if i < 0 || i >= v.len() {
        0
    } else if v[i].0@ == net {
        v[i].1 as int
    } else {
        total_pins(v, net, i + 1)
    }
}

pub open spec fn ends_spec(f: Frame, lst: Seq<(usize, usize)>) -> Seq<End> {
    Seq::new(lst.len(), |i: int| f.end_spec(lst[i]))
}

/// The drawing after one net, and whether the net got labels.
pub open spec fn net_spec(f: Frame, st: DrawnV, net: Seq<char>, lst: Seq<(usize, usize)>, supply: bool) -> (
    DrawnV,
    bool,
) {
    let ends = ends_spec(f, lst);
    let n = ends.len() as int;
    if n < 2 {
        (st, false)
    } else {
        let ns = wired_net(f, st, net, ends, supply);
        if supply {
            (supply_spec(f, ns, net, ends, n), false)
        } else if class_count(ns.comp, n) > 1 || total_pins(f.all_nets@, net, 0) > n {
            (labels_spec(f, ns, net, ends, n), true)
        } else {
            (ns.st, false)
        }
    }
}

fn members_of_class(comp: &Vec<usize>, lead: usize) -> (r: Vec<usize>)
    requires
        lead < comp@.len(),
    ensures
        order::as_ints(r@) == class_of(
            order::as_ints(comp@),
            lead as int,
            comp@.len() as int,
        ),
        forall|i: int| 0 <= i < r@.len() ==> #[trigger] r@[i] < comp@.len(),
        r@.len() >= 1,
{
    let ghost c = order::as_ints(comp@);
    let mut r: Vec<usize> = Vec::new();
    let mut n: usize = 0;
    assert(order::as_ints(r@) =~= Seq::empty());
    while n < comp.len()
        invariant
            n <= comp@.len(),
            lead < comp@.len(),
            c == order::as_ints(comp@),
            n > lead ==> r@.len() >= 1,
            forall|i: int| 0 <= i < r@.len() ==> #[trigger] r@[i] < n,
            order::as_ints(r@) == class_of(c, lead as int, n as int),
        decreases comp@.len() - n,
    {
        if comp[n] == comp[lead] {
            let ghost r0 = r@;
            r.push(n);
            assert(order::as_ints(r@) =~= order::as_ints(r0).push(n as int));
        }
        n += 1;
    }
    r
}

fn is_lead(comp: &Vec<usize>, i: usize) -> (r: bool)
    requires
        i < comp@.len(),
    ensures
        r == leads(order::as_ints(comp@), i as int),
{
    let ghost c = order::as_ints(comp@);
    let mut k: usize = 0;
    while k < i
        invariant
            k <= i,
            i < comp@.len(),
            c == order::as_ints(comp@),
            forall|j: int| 0 <= j < k ==> #[trigger] c[j] != c[i as int],
        decreases i - k,
    {
        if comp[k] == comp[i] {
            assert(c[k as int] == c[i as int]);
            return false;
        }
        k += 1;
    }
    true
}

/// The best horizontal run seen so far.
#[derive(Clone, Copy, Debug)]
pub struct Run {
    pub len: i64,
    pub a: Pt,
    pub b: Pt,
}

pub open spec fn run_v(r: Option<Run>) -> Option<RunV> {
    match r {
        Some(x) => Some(RunV { len: x.len as int, a: x.a, b: x.b }),
        None => None,
    }
}

fn better_run(s: &Vec<(Pt, Pt)>, best: Option<Run>) -> (r: Option<Run>)
    requires
        wire_segs(s@),
        best matches Some(x) ==> symlib::wire_pt(x.a) && symlib::wire_pt(x.b),
    ensures
        run_v(r) == best_run(s@, s@.len() as int, run_v(best)),
        r matches Some(x) ==> symlib::wire_pt(x.a) && symlib::wire_pt(x.b),
{
    let ghost b0 = run_v(best);
    let mut best = best;
    let mut i: usize = 0;
    while i < s.len()
        invariant
            i <= s@.len(),
            wire_segs(s@),
            best matches Some(x) ==> symlib::wire_pt(x.a) && symlib::wire_pt(x.b),
            run_v(best) == best_run(s@, i as int, b0),
        decreases s@.len() - i,
    {
        let (p, q) = s[i];
        assert(symlib::wire_pt(s@[i as int].0));
        let len: i64 = abs_i(p.x - q.x);
        if p.y == q.y && len >= 508_000 {
            let better = match best {
                Some(x) => len > x.len || (len == x.len && (p.x > x.a.x || (p.x == x.a.x && (p.y
                    > x.a.y || (p.y == x.a.y && (q.x > x.b.x || (q.x == x.b.x && q.y > x.b.y))))))),
                None => true,
            };
            if better {
                best = Some(Run { len, a: p, b: q });
            }
        }
        i += 1;
    }
    best
}

impl Frame {
    fn class_has_key(&self, ends: &Vec<End>, members: &Vec<usize>, e: &End) -> (r: bool)
        requires
            ends_ok(*self, ends@),
            end_ok(*self, *e),
            forall|i: int| 0 <= i < members@.len() ==> #[trigger] members@[i] < ends@.len(),
        ensures
            r == class_has(*self, ends@, order::as_ints(members@), self.key_spec(*e)),
    {
        let ghost ms = order::as_ints(members@);
        let id = &self.parts[e.p].id;
        let number = &self.parts[e.p].pins[e.pin].number;
        let mut m: usize = 0;
        while m < members.len()
            invariant
                m <= members@.len(),
                ends_ok(*self, ends@),
                ms == order::as_ints(members@),
                forall|i: int| 0 <= i < members@.len() ==> #[trigger] members@[i] < ends@.len(),
                (id@, number@) == self.key_spec(*e),
                forall|j: int|
                    0 <= j < m ==> self.key_spec(ends@[#[trigger] ms[j]]) != self.key_spec(*e),
            decreases members@.len() - m,
        {
            let k: usize = members[m];
            assert(k < ends@.len());
            assert(end_ok(*self, ends@[k as int]));
            let o = &ends[k];
            if self.parts[o.p].id == *id && self.parts[o.p].pins[o.pin].number == *number {
                assert(self.key_spec(ends@[ms[m as int]]) == self.key_spec(*e));
                return true;
            }
            m += 1;
        }
        false
    }

    fn supply_symbol(&self, st: &mut Drawn, cl: &Classes, net: &str, ends: &Vec<End>, lead: usize)
        requires
            self.wf(),
            old(st).wf(),
            cl.ok(ends@.len() as int),
            ends_ok(*self, ends@),
            lead < ends@.len(),
            net@.len() <= TEXT_MAX,
        ensures
            final(st).wf(),
            final(st)@ == supply_class(*self, cl.net_v(old(st)@), net@, ends@, lead as int),
    {
        let ghost ns = cl.net_v(st@);
        let members = members_of_class(&cl.comp, lead);
        let ghost ms = order::as_ints(members@);
        if members.len() == 1 {
            return ;
        }
        let mut m: usize = 0;
        while m < members.len()
            invariant
                m <= members@.len(),
                ends_ok(*self, ends@),
                ms == order::as_ints(members@),
                forall|i: int| 0 <= i < members@.len() ==> #[trigger] members@[i] < ends@.len(),
                *st == *old(st),
                st.wf(),
                ns == cl.net_v(old(st)@),
                ms == class_of(ns.comp, lead as int, ends@.len() as int),
                members@.len() != 1,
                forall|j: int|
                    0 <= j < m ==> st@.wired.contains(
                        self.key_spec(ends@[#[trigger] ms[j]]),
                    ),
            decreases members@.len() - m,
        {
            let k: usize = members[m];
            assert(k < ends@.len());
            assert(end_ok(*self, ends@[k as int]));
            if !self.is_marked(&st.wired_pins, &ends[k]) {
                assert(!st@.wired.contains(self.key_spec(ends@[ms[m as int]])));
                return ;
            }
            m += 1;
        }
        assert(all_wired(*self, st@, ends@, ms));
        let l = st.net_list(net);
        let n: usize = if l.len() <= cl.owner.len() { l.len() } else { cl.owner.len() };
        let mut best: Option<Run> = None;
        let mut i: usize = 0;
        while i < n
            invariant
                i <= n,
                n <= l@.len(),
                n <= cl.owner@.len(),
                st.wf(),
                cl.ok(ends@.len() as int),
                ends_ok(*self, ends@),
                ns == cl.net_v(st@),
                ms == order::as_ints(members@),
                forall|i: int| 0 <= i < members@.len() ==> #[trigger] members@[i] < ends@.len(),
                forall|i: int| 0 <= i < l@.len() ==> #[trigger] l@[i] < st.wires@.len(),
                best matches Some(x) ==> symlib::wire_pt(x.a) && symlib::wire_pt(x.b),
                run_v(best) == class_run(*self, ns, ends@, ms, l@, i as int),
            decreases n - i,
        {
            let o: usize = cl.owner[i];
            assert(o < ends@.len());
            assert(ns.owner[i as int] == o);
            assert(end_ok(*self, ends@[o as int]));
            let wi: usize = l[i];
            assert(wi < st.wires@.len());
            if self.class_has_key(ends, &members, &ends[o]) {
                assert(st@.wires[wi as int] == st.wires@[wi as int]@);
                let mut segs: Vec<(Pt, Pt)> = Vec::new();
                push_segs(&mut segs, &st.wires[wi]);
                let ghost w = st@.wires[wi as int];
                assert(segs@ =~= segs_of(w, w.len() - 1));
                best = better_run(&segs, best);
            }
            i += 1;
        }
        let ghost s0 = st@;
        match best {
            Some(r) => {
                let at = Pt { x: mid_line(r.a.x, r.b.x), y: r.a.y };
                let ghost m0 = st.symbol_on_wire@;
                st.symbol_on_wire.push((net.to_owned(), at));
                proof {
                    assert(marks_v(st.symbol_on_wire@) =~= marks_v(m0).push((net@, at)));
                    assert(st@ =~= DrawnV { on_wire: s0.on_wire.push((net@, at)), ..s0 });
                }
            },
            None => {
                let mut k: usize = 0;
                let mut pick: usize = members[0];
                let mut going = true;
                assert(members@[0] < ends@.len());
                while going && k < members.len()
                    invariant
                        k <= members@.len(),
                        members@.len() >= 1,
                        pick < ends@.len(),
                        ms == order::as_ints(members@),
                        forall|i: int|
                            0 <= i < members@.len() ==> #[trigger] members@[i] < ends@.len(),
                        going ==> pick == ms[0] && upward_of(ends@, ms, 0) == upward_of(
                            ends@,
                            ms,
                            k as int,
                        ),
                        !going ==> pick == upward_of(ends@, ms, 0),
                    decreases (if going { 1int } else { 0 }), members@.len() - k,
                {
                    let q: usize = members[k];
                    assert(q < ends@.len());
                    if ends[q].d.0 == 0 && ends[q].d.1 == -1 {
                        pick = q;
                        going = false;
                    } else {
                        k += 1;
                    }
                }
                assert(end_ok(*self, ends@[pick as int]));
                self.mark(&mut st.power_symbol_pins, &ends[pick]);
                assert(st@ =~= DrawnV {
                    power_pins: s0.power_pins.insert(self.key_spec(ends@[pick as int])),
                    ..s0
                });
            },
        }
    }
}

impl Frame {
    fn label_sequence(&self, st: &Drawn, ends: &Vec<End>, net: &str, members: &Vec<usize>) -> (r: Vec<
        usize,
    >)
        requires
            self.wf(),
            st.wf(),
            ends_ok(*self, ends@),
            net@.len() <= TEXT_MAX,
            forall|i: int| 0 <= i < members@.len() ==> #[trigger] members@[i] < ends@.len(),
        ensures
            order::as_ints(r@) == label_order(
                *self,
                st@,
                ends@,
                net@,
                order::as_ints(members@),
            ),
            r@.len() == members@.len(),
            forall|i: int| 0 <= i < r@.len() ==> #[trigger] r@[i] < ends@.len(),
    {
        let ghost ms = order::as_ints(members@);
        let ghost less = |a: int, b: int| label_sooner(*self, st@, ends@, net@, ms[a], ms[b]);
        let mut keys: Vec<(bool, (u64, u128))> = Vec::new();
        let mut m: usize = 0;
        while m < members.len()
            invariant
                m <= members@.len(),
                self.wf(),
                st.wf(),
                ends_ok(*self, ends@),
                net@.len() <= TEXT_MAX,
                ms == order::as_ints(members@),
                forall|i: int| 0 <= i < members@.len() ==> #[trigger] members@[i] < ends@.len(),
                keys@.len() == m,
                forall|j: int|
                    0 <= j < m ==> (#[trigger] keys@[j]).0 == st@.wired.contains(
                        self.key_spec(ends@[ms[j]]),
                    ) && 10 * keys@[j].1.0 + 3 * keys@[j].1.1 == crowding_spec(
                        *self,
                        st@.wires,
                        ends@[ms[j]],
                        net@.len() as int,
                    ) && keys@[j].1.0 <= 0x10_0000,
            decreases members@.len() - m,
        {
            let k: usize = members[m];
            assert(k < ends@.len());
            assert(end_ok(*self, ends@[k as int]));
            let w = self.is_marked(&st.wired_pins, &ends[k]);
            let c = self.crowding(st, &ends[k], net);
            keys.push((w, c));
            m += 1;
        }
        let mut o: Vec<usize> = Vec::new();
        let mut n: usize = 0;
        assert(order::as_ints(o@) =~= Seq::empty());
        while n < members.len()
            invariant
                n <= members@.len(),
                ms == order::as_ints(members@),
                keys@.len() == members@.len(),
                less == (|a: int, b: int| label_sooner(*self, st@, ends@, net@, ms[a], ms[b])),
                forall|j: int|
                    0 <= j < keys@.len() ==> (#[trigger] keys@[j]).0 == st@.wired.contains(
                        self.key_spec(ends@[ms[j]]),
                    ) && 10 * keys@[j].1.0 + 3 * keys@[j].1.1 == crowding_spec(
                        *self,
                        st@.wires,
                        ends@[ms[j]],
                        net@.len() as int,
                    ) && keys@[j].1.0 <= 0x10_0000,
                o@.len() == n,
                order::as_ints(o@) == order::ranked(less, n as int),
                forall|i: int| 0 <= i < n ==> #[trigger] o@[i] < n,
            decreases members@.len() - n,
        {
            let mut pos: usize = o.len();
            let mut going = true;
            while going && pos > 0
                invariant
                    pos <= o@.len(),
                    n < members@.len(),
                    o@.len() == n,
                    keys@.len() == members@.len(),
                    less == (|a: int, b: int| label_sooner(*self, st@, ends@, net@, ms[a], ms[b])),
                    forall|j: int|
                        0 <= j < keys@.len() ==> (#[trigger] keys@[j]).0 == st@.wired.contains(
                            self.key_spec(ends@[ms[j]]),
                        ) && 10 * keys@[j].1.0 + 3 * keys@[j].1.1 == crowding_spec(
                            *self,
                            st@.wires,
                            ends@[ms[j]],
                            net@.len() as int,
                        ) && keys@[j].1.0 <= 0x10_0000,
                    forall|i: int| 0 <= i < n ==> #[trigger] o@[i] < n,
                    going ==> order::slot(less, order::as_ints(o@), n as int, o@.len() as int)
                        == order::slot(less, order::as_ints(o@), n as int, pos as int),
                    !going ==> order::slot(less, order::as_ints(o@), n as int, o@.len() as int)
                        == pos,
                decreases (if going { 1int } else { 0 }), pos,
            {
                let q: usize = o[pos - 1];
                assert(order::as_ints(o@)[pos - 1] == q);
                let (wa, ca) = keys[n];
                let (wb, cb) = keys[q];
                if (!wa && wb) || (wa == wb && less_crowded(ca, cb)) {
                    pos -= 1;
                } else {
                    going = false;
                }
            }
            let ghost o0 = o@;
            o.insert(pos, n);
            proof {
                assert(order::as_ints(o@) =~= order::as_ints(o0).insert(pos as int, n as int));
                assert forall|i: int| 0 <= i < n + 1 implies #[trigger] o@[i] < n + 1 by {
                    if i < pos {
                        assert(o@[i] == o0[i]);
                    } else if i > pos {
                        assert(o@[i] == o0[i - 1]);
                    }
                }
            }
            n += 1;
        }
        let ghost want = label_order(*self, st@, ends@, net@, ms);
        let mut r: Vec<usize> = Vec::new();
        let mut j: usize = 0;
        assert(order::as_ints(r@) =~= want.take(0));
        while j < o.len()
            invariant
                j <= o@.len(),
                o@.len() == members@.len(),
                ms == order::as_ints(members@),
                want == label_order(*self, st@, ends@, net@, ms),
                order::as_ints(o@) == order::ranked(
                    |a: int, b: int| label_sooner(*self, st@, ends@, net@, ms[a], ms[b]),
                    ms.len() as int,
                ),
                forall|i: int| 0 <= i < members@.len() ==> #[trigger] members@[i] < ends@.len(),
                forall|i: int| 0 <= i < o@.len() ==> #[trigger] o@[i] < members@.len(),
                r@.len() == j,
                order::as_ints(r@) == want.take(j as int),
                forall|i: int| 0 <= i < r@.len() ==> #[trigger] r@[i] < ends@.len(),
            decreases o@.len() - j,
        {
            let q: usize = o[j];
            assert(q < members@.len());
            assert(order::as_ints(o@)[j as int] == q);
            assert(members@[q as int] < ends@.len());
            let ghost r0 = r@;
            r.push(members[q]);
            proof {
                assert(want.take(j + 1) =~= want.take(j as int).push(want[j as int]));
                assert(order::as_ints(r@) =~= order::as_ints(r0).push(want[j as int]));
            }
            j += 1;
        }
        assert(want.take(j as int) =~= want);
        r
    }

    fn label_class(&self, st: &mut Drawn, ends: &Vec<End>, net: &str, cand: &Vec<usize>)
        requires
            self.wf(),
            old(st).wf(),
            ends_ok(*self, ends@),
            net@.len() <= TEXT_MAX,
            cand@.len() >= 1,
            forall|i: int| 0 <= i < cand@.len() ==> #[trigger] cand@[i] < ends@.len(),
        ensures
            final(st).wf(),
            final(st)@ == label_tries(*self, old(st)@, ends@, net@, order::as_ints(cand@), 0),
    {
        let ghost cs = order::as_ints(cand@);
        let ghost goal = label_tries(*self, st@, ends@, net@, cs, 0);
        let mut i: usize = 0;
        while i < cand.len()
            invariant
                i <= cand@.len(),
                self.wf(),
                st.wf(),
                ends_ok(*self, ends@),
                net@.len() <= TEXT_MAX,
                cs == order::as_ints(cand@),
                forall|i: int| 0 <= i < cand@.len() ==> #[trigger] cand@[i] < ends@.len(),
                goal == label_tries(*self, st@, ends@, net@, cs, i as int),
                goal == label_tries(*self, old(st)@, ends@, net@, cs, 0),
            decreases cand@.len() - i,
        {
            let k: usize = cand[i];
            assert(k < ends@.len());
            assert(end_ok(*self, ends@[k as int]));
            assert(cs[i as int] == k);
            if self.label_pin(st, &ends[k], net, false) {
                return ;
            }
            i += 1;
        }
        let k: usize = cand[0];
        assert(k < ends@.len());
        assert(end_ok(*self, ends@[k as int]));
        assert(cs[0] == k);
        let _ = self.label_pin(st, &ends[k], net, true);
    }

    pub(crate) fn count_pins(&self, net: &str) -> (r: u64)
        ensures
            r == total_pins(self.all_nets@, net@, 0),
    {
        let key = net.to_owned();
        let mut i: usize = 0;
        while i < self.all_nets.len()
            invariant
                i <= self.all_nets@.len(),
                key@ == net@,
                total_pins(self.all_nets@, net@, 0) == total_pins(self.all_nets@, net@, i as int),
            decreases self.all_nets@.len() - i,
        {
            if self.all_nets[i].0 == key {
                return self.all_nets[i].1;
            }
            i += 1;
        }
        0
    }

    pub(crate) fn route_net(&self, st: &mut Drawn, net: &str, lst: &Vec<(usize, usize)>, supply: bool) -> (r: bool)
        requires
            self.wf(),
            old(st).wf(),
            refs_ok(self.parts@, lst@),
            lst@.len() <= 0x100_0000,
            net@.len() <= TEXT_MAX,
        ensures
            final(st).wf(),
            (final(st)@, r) == net_spec(*self, old(st)@, net@, lst@, supply),
    {
        let ghost want = ends_spec(*self, lst@);
        let mut ends: Vec<End> = Vec::new();
        let mut i: usize = 0;
        while i < lst.len()
            invariant
                i <= lst@.len(),
                self.wf(),
                refs_ok(self.parts@, lst@),
                want == ends_spec(*self, lst@),
                ends@ == want.take(i as int),
                ends_ok(*self, ends@),
            decreases lst@.len() - i,
        {
            let q: (usize, usize) = lst[i];
            assert(lst@[i as int].0 < self.parts@.len());
            let e = self.end_at(q);
            assert(want.take(i + 1) =~= want.take(i as int).push(want[i as int]));
            ends.push(e);
            i += 1;
        }
        assert(want.take(i as int) =~= want);
        let n: usize = ends.len();
        if n < 2 {
            return false;
        }
        let cl = self.wire_net(st, net, &ends, supply);
        let ghost ns = cl.net_v(st@);
        if supply {
            let mut k: usize = 0;
            while k < n
                invariant
                    k <= n,
                    n == ends@.len(),
                    self.wf(),
                    st.wf(),
                    cl.ok(n as int),
                    ends_ok(*self, ends@),
                    ns.comp == order::as_ints(cl.comp@),
                    ns.owner == order::as_ints(cl.owner@),
                    net@.len() <= TEXT_MAX,
                    st@ == supply_spec(*self, ns, net@, ends@, k as int),
                decreases n - k,
            {
                if is_lead(&cl.comp, k) {
                    assert(cl.net_v(st@) == NetV { st: st@, ..ns });
                    self.supply_symbol(st, &cl, net, &ends, k);
                }
                k += 1;
            }
            return false;
        }
        let mut classes: usize = 0;
        let mut k: usize = 0;
        while k < n
            invariant
                k <= n,
                n == ends@.len(),
                cl.ok(n as int),
                ns.comp == order::as_ints(cl.comp@),
                classes == class_count(ns.comp, k as int),
                classes <= k,
            decreases n - k,
        {
            if is_lead(&cl.comp, k) {
                classes += 1;
            }
            k += 1;
        }
        if !(classes > 1 || self.count_pins(net) > n as u64) {
            return false;
        }
        k = 0;
        while k < n
            invariant
                k <= n,
                n == ends@.len(),
                self.wf(),
                st.wf(),
                cl.ok(n as int),
                ends_ok(*self, ends@),
                net@.len() <= TEXT_MAX,
                ns.comp == order::as_ints(cl.comp@),
                st@ == labels_spec(*self, ns, net@, ends@, k as int),
            decreases n - k,
        {
            if is_lead(&cl.comp, k) {
                let members = members_of_class(&cl.comp, k);
                let cand = self.label_sequence(st, &ends, net, &members);
                self.label_class(st, &ends, net, &cand);
            }
            k += 1;
        }
        true
    }
}

} // verus!
