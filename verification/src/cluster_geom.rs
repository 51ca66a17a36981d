//! Drawings of clusters: chains stacked pin to pin, banks between two buses.
use crate::emit;
use crate::emit::{snap_sum, Dir};
use crate::flex::cut_wide;
use crate::geom;
use crate::geom::{max_i, min_i, Pt};
use crate::kernel::{Bank, Block, ClusterGeom, Component, Link, PinTarget};
use crate::order_map;
use crate::orient;
use crate::reconcile;
use crate::reconcile::{cluster_key, find_named, seek_name, MemberInfo};
use crate::text::same;
use vstd::prelude::*;

verus! {

/// Distance between the members of a bank.
pub const BANK_PITCH: i64 = 762_000;

/// Distance of a bus beyond the outermost pin ends.
pub const BUS_DROP: i64 = 254_000;

/// Where the pins of upright symbols end: component, pin, offset from the symbol's origin.
pub type PinEnds = Vec<(String, String, Pt)>;

#[verifier::ext_equal]
pub struct GeomV {
    pub placements: Seq<(Seq<char>, Pt, i32)>,
    pub envelope: Pt,
    pub wires: Seq<(Pt, Pt, Seq<char>)>,
    pub junctions: Seq<Pt>,
    pub ports: Seq<(Seq<char>, Pt)>,
    pub labels: Seq<(Seq<char>, Pt, Dir)>,
    pub tap_points: Seq<(Seq<char>, Pt)>,
    pub covered: Seq<(Seq<char>, Seq<char>)>,
}

pub open spec fn placements_v(v: Seq<(String, Pt, i32)>) -> Seq<(Seq<char>, Pt, i32)> {
    Seq::new(v.len(), |i: int| (v[i].0@, v[i].1, v[i].2))
}

pub open spec fn wires_v(v: Seq<(Pt, Pt, String)>) -> Seq<(Pt, Pt, Seq<char>)> {
    Seq::new(v.len(), |i: int| (v[i].0, v[i].1, v[i].2@))
}

pub open spec fn labels_v(v: Seq<(String, Pt, Dir)>) -> Seq<(Seq<char>, Pt, Dir)> {
    Seq::new(v.len(), |i: int| (v[i].0@, v[i].1, v[i].2))
}

impl View for ClusterGeom {
    type V = GeomV;

    open spec fn view(&self) -> GeomV {
        GeomV {
            placements: placements_v(self.placements@),
            envelope: self.envelope,
            wires: wires_v(self.wires@),
            junctions: self.junctions@,
            ports: reconcile::named(self.ports@),
            labels: labels_v(self.labels@),
            tap_points: reconcile::named(self.tap_points@),
            covered: emit::pairs_v(self.covered@),
        }
    }
}

pub open spec fn covering(g: GeomV, r: Seq<char>, p: Seq<char>) -> GeomV {
    if g.covered.contains((r, p)) {
        g
    } else {
        GeomV { covered: g.covered.push((r, p)), ..g }
    }
}

pub open spec fn placing(g: GeomV, r: Seq<char>, at: Pt, angle: i32) -> GeomV {
    GeomV { placements: g.placements.push((r, at, angle)), ..g }
}

impl ClusterGeom {
    /// A drawing of nothing.
    pub fn new() -> (r: ClusterGeom)
        ensures
            r@ == (GeomV {
                placements: Seq::empty(),
                envelope: (Pt { x: 0, y: 0 }),
                wires: Seq::empty(),
                junctions: Seq::empty(),
                ports: Seq::empty(),
                labels: Seq::empty(),
                tap_points: Seq::empty(),
                covered: Seq::empty(),
            }),
    {
        let r = ClusterGeom {
            placements: Vec::new(),
            envelope: Pt { x: 0, y: 0 },
            wires: Vec::new(),
            junctions: Vec::new(),
            ports: Vec::new(),
            labels: Vec::new(),
            tap_points: Vec::new(),
            covered: Vec::new(),
        };
        assert(r@ =~= GeomV {
            placements: Seq::empty(),
            envelope: Pt { x: 0, y: 0 },
            wires: Seq::empty(),
            junctions: Seq::empty(),
            ports: Seq::empty(),
            labels: Seq::empty(),
            tap_points: Seq::empty(),
            covered: Seq::empty(),
        });
        r
    }

    fn cover(&mut self, r: &str, p: &str)
        ensures
            final(self)@ == covering(old(self)@, r@, p@),
    {
        let ghost b = self@;
        let ghost m = b.covered;
        let mut i: usize = 0;
        while i < self.covered.len()
            invariant
                i <= self.covered@.len(),
                self@ == b,
                m == b.covered,
                m == emit::pairs_v(self.covered@),
                forall|k: int| 0 <= k < i ==> #[trigger] m[k] != (r@, p@),
            decreases self.covered@.len() - i,
        {
            assert(m[i as int] == (self.covered@[i as int].0@, self.covered@[i as int].1@));
            if same(self.covered[i].0.as_str(), r) && same(self.covered[i].1.as_str(), p) {
                return;
            }
            i += 1;
        }
        self.covered.push((r.to_owned(), p.to_owned()));
        assert(emit::pairs_v(self.covered@) =~= m.push((r@, p@)));
        assert(self@ =~= covering(b, r@, p@));
    }

    fn place(&mut self, r: &str, at: Pt, angle: i32)
        ensures
            final(self)@ == placing(old(self)@, r@, at, angle),
    {
        let ghost b = self@;
        self.placements.push((r.to_owned(), at, angle));
        assert(placements_v(self.placements@) =~= b.placements.push((r@, at, angle)));
        assert(self@ =~= placing(b, r@, at, angle));
    }
}

// ---------------------------------------------------------------- pin ends
/// The first entry of a pin from `i` on, or the number of entries.
pub open spec fn end_at(v: Seq<(String, String, Pt)>, r: Seq<char>, p: Seq<char>, i: int) -> int
    decreases v.len() - i,
{
    if i < 0 || i >= v.len() || (v[i].0@ == r && v[i].1@ == p) {
        i
    } else {
        end_at(v, r, p, i + 1)
    }
}

/// Where a pin of an upright symbol ends; three grid steps above or below the origin where that is
/// not known.
pub open spec fn end_of(v: Seq<(String, String, Pt)>, r: Seq<char>, p: Seq<char>, up: bool) -> Pt {
    let i = end_at(v, r, p, 0);
    if i < v.len() {
        Pt { x: orient::cut(v[i].2.x as int), y: orient::cut(v[i].2.y as int) }
    } else if up {
        Pt { x: 0, y: (-381_000) as i64 }
    } else {
        Pt { x: 0, y: 381_000 }
    }
}

fn find_end(v: &PinEnds, r: &str, p: &str, up: bool) -> (e: Pt)
    ensures
        e == end_of(v@, r@, p@, up),
        orient::fits(e.x as int) && orient::fits(e.y as int),
{
    let mut i: usize = 0;
    while i < v.len()
        invariant
            i <= v@.len(),
            end_at(v@, r@, p@, 0) == end_at(v@, r@, p@, i as int),
        decreases v@.len() - i,
    {
        if same(v[i].0.as_str(), r) && same(v[i].1.as_str(), p) {
            return Pt { x: cut_wide(v[i].2.x as i128), y: cut_wide(v[i].2.y as i128) };
        }
        i += 1;
    }
    if up {
        Pt { x: 0, y: -381_000 }
    } else {
        Pt { x: 0, y: 381_000 }
    }
}

/// The end of a pin on a symbol that is turned over.
pub open spec fn turned(e: Pt, angle: i32) -> Pt {
    if angle == 180 {
        Pt { x: (-e.x) as i64, y: (-e.y) as i64 }
    } else {
        e
    }
}

fn turn(e: Pt, angle: i32) -> (r: Pt)
    requires
        orient::fits(e.x as int) && orient::fits(e.y as int),
    ensures
        r == turned(e, angle),
{
    if angle == 180 {
        Pt { x: -e.x, y: -e.y }
    } else {
        e
    }
}

// ---------------------------------------------------------------- chains
/// A chain being stacked: the drawing, the end of the last link, the joints.
#[verifier::ext_equal]
pub struct StackV {
    pub g: GeomV,
    pub p: Pt,
    pub joints: Seq<(Seq<char>, Pt)>,
}

/// The stack with one link more. The link stands with its first pin at the end of the one before,
/// turned over where that pin would point the wrong way.
pub open spec fn stack_step(s: StackV, l: Link, last: bool, down: bool, ends: Seq<(String, String, Pt)>) -> StackV {
    let ea = end_of(ends, l.refdes@, l.a_pin@, true);
    let eb = end_of(ends, l.refdes@, l.b_pin@, false);
    let angle = if (ea.y < eb.y) == down {
        0i32
    } else {
        180i32
    };
    let (ra, rb) = (turned(ea, angle), turned(eb, angle));
    let center = emit::snapped_pt(s.p.x - ra.x, s.p.y - ra.y);
    let p = emit::snapped_pt(center.x + rb.x, center.y + rb.y);
    StackV {
        g: covering(
            covering(placing(s.g, l.refdes@, center, angle), l.refdes@, l.a_pin@),
            l.refdes@,
            l.b_pin@,
        ),
        p,
        joints: if last {
            s.joints
        } else {
            s.joints.push((l.b_net@, p))
        },
    }
}

/// The stack after the first `n` links.
pub open spec fn stacked(
    g: GeomV,
    links: Seq<Link>,
    start: Pt,
    down: bool,
    ends: Seq<(String, String, Pt)>,
    n: int,
) -> StackV
    decreases n,
{
    if n <= 0 {
        StackV { g, p: start, joints: Seq::empty() }
    } else {
        stack_step(
            stacked(g, links, start, down, ends, n - 1),
            links[n - 1],
            n == links.len(),
            down,
            ends,
        )
    }
}

/// Stacks a chain pin to pin from a point, downward or upward. Gives the end of the last link and
/// the points where two links meet.
#[verifier::spinoff_prover]
#[verifier::rlimit(40)]
pub fn stack_chain(g: &mut ClusterGeom, links: &Vec<Link>, start: Pt, down: bool, ends: &PinEnds) -> (r:
    (Pt, Vec<(String, Pt)>))
    ensures
        (StackV { g: final(g)@, p: r.0, joints: reconcile::named(r.1@) }) == stacked(
            old(g)@,
            links@,
            start,
            down,
            ends@,
            links@.len() as int,
        ),
{
    let ghost g0 = g@;
    let mut p = start;
    let mut joints: Vec<(String, Pt)> = Vec::new();
    let mut i: usize = 0;
    assert(reconcile::named(joints@) =~= Seq::empty());
    let n = links.len();
    while i < n
        invariant
            i <= n == links@.len(),
            (StackV { g: g@, p, joints: reconcile::named(joints@) }) == stacked(
                g0,
                links@,
                start,
                down,
                ends@,
                i as int,
            ),
        decreases n - i,
    {
        let l = &links[i];
        let ghost j0 = reconcile::named(joints@);
        let ea = find_end(ends, l.refdes.as_str(), l.a_pin.as_str(), true);
        let eb = find_end(ends, l.refdes.as_str(), l.b_pin.as_str(), false);
        let angle: i32 = if (ea.y < eb.y) == down { 0 } else { 180 };
        let ra = turn(ea, angle);
        let rb = turn(eb, angle);
        let center = snap_sum(p.x as i128 - ra.x as i128, p.y as i128 - ra.y as i128);
        g.place(l.refdes.as_str(), center, angle);
        g.cover(l.refdes.as_str(), l.a_pin.as_str());
        g.cover(l.refdes.as_str(), l.b_pin.as_str());
        p = snap_sum(center.x as i128 + rb.x as i128, center.y as i128 + rb.y as i128);
        if i + 1 < n {
            joints.push((l.b_net.clone(), p));
            assert(reconcile::named(joints@) =~= j0.push((l.b_net@, p)));
        }
        i += 1;
    }
    (p, joints)
}

/// A chain of any length has one joint fewer than links.
pub proof fn joints_lie_between_links(
    g: GeomV,
    links: Seq<Link>,
    start: Pt,
    down: bool,
    ends: Seq<(String, String, Pt)>,
    n: int,
)
    requires
        0 <= n <= links.len(),
    ensures
        stacked(g, links, start, down, ends, n).joints.len() == if n > 0 && n == links.len() {
            n - 1
        } else {
            n
        },
        stacked(g, links, start, down, ends, n).g.placements.len() == g.placements.len() + n,
    decreases n,
{
    if n > 0 {
        joints_lie_between_links(g, links, start, down, ends, n - 1);
    }
}

// ---------------------------------------------------------------- banks
/// The first pin of a component on a net among its first `n`.
pub open spec fn pin_on(v: Seq<(String, PinTarget)>, net: Seq<char>, n: int) -> Option<int>
    decreases n,
{
    if n <= 0 {
        None
    } else {
        match pin_on(v, net, n - 1) {
            Some(i) => Some(i),
            None => if v[n - 1].1 is Net && v[n - 1].1->Net_0@ == net {
                Some(n - 1)
            } else {
                None
            },
        }
    }
}

/// The last pin among the first `n` that is not that one.
pub open spec fn pin_off(v: Seq<(String, PinTarget)>, net: Seq<char>, n: int) -> Option<int>
    decreases n,
{
    if n <= 0 {
        None
    } else if pin_on(v, net, n) == Some(n - 1) {
        pin_off(v, net, n - 1)
    } else {
        Some(n - 1)
    }
}

/// The pin of a component on a net and its other pin, if it has both.
pub open spec fn split_of(c: Component, net: Seq<char>) -> Option<(Seq<char>, Seq<char>)> {
    match (pin_on(c.pins@, net, c.pins@.len() as int), pin_off(c.pins@, net, c.pins@.len() as int)) {
        (Some(i), Some(j)) => Some((c.pins@[i].0@, c.pins@[j].0@)),
        _ => None,
    }
}

/// The pin of a component on a net and its other pin, if it has both.
pub fn pin_split(c: &Component, net: &str) -> (r: Option<(String, String)>)
    ensures
        match r {
            Some(x) => split_of(*c, net@) == Some((x.0@, x.1@)),
            None => split_of(*c, net@) is None,
        },
{
    let mut on: Option<usize> = None;
    let mut off: Option<usize> = None;
    let mut i: usize = 0;
    while i < c.pins.len()
        invariant
            i <= c.pins@.len(),
            on is Some ==> on->0 < i,
            off is Some ==> off->0 < i,
            pin_on(c.pins@, net@, i as int) == (match on {
                Some(k) => Some(k as int),
                None => None,
            }),
            pin_off(c.pins@, net@, i as int) == (match off {
                Some(k) => Some(k as int),
                None => None,
            }),
        decreases c.pins@.len() - i,
    {
        let here = match &c.pins[i].1 {
            PinTarget::Net(n) => same(n.as_str(), net),
            PinTarget::NoConnect => false,
        };
        if here && on.is_none() {
            on = Some(i);
        } else {
            off = Some(i);
        }
        i += 1;
    }
    match (on, off) {
        (Some(a), Some(b)) => Some((c.pins[a].0.clone(), c.pins[b].0.clone())),
        _ => None,
    }
}

/// The pins of a member of a bank, if it has them.
pub open spec fn member_pins(b: Block, bank: Bank, i: int) -> Option<(Seq<char>, Seq<char>)> {
    match order_map::look(reconcile::named(b.components@), bank.members@[i]@) {
        Some(c) => split_of(c, bank.a_net@),
        None => None,
    }
}

/// Whether every member of a bank stands in a block with a pin on the upper net and another pin.
pub open spec fn bank_ok(b: Block, bank: Bank) -> bool {
    bank.members@.len() > 0 && forall|i: int|
        0 <= i < bank.members@.len() ==> #[trigger] member_pins(b, bank, i) is Some
}

/// A bank being drawn: the drawing, and the upper and lower pin ends.
#[verifier::ext_equal]
pub struct BankV {
    pub g: GeomV,
    pub top: Seq<Pt>,
    pub bot: Seq<Pt>,
}

/// The bank after its first `n` members: side by side, the pin on the upper net up.
pub open spec fn banked(
    g: GeomV,
    b: Block,
    bank: Bank,
    origin: Pt,
    ends: Seq<(String, String, Pt)>,
    n: int,
) -> BankV
    decreases n,
{
    if n <= 0 {
        BankV { g, top: Seq::empty(), bot: Seq::empty() }
    } else {
        let s = banked(g, b, bank, origin, ends, n - 1);
        let r = bank.members@[n - 1]@;
        let (ap, bp) = member_pins(b, bank, n - 1)->0;
        let ea = end_of(ends, r, ap, true);
        let eb = end_of(ends, r, bp, false);
        let angle = if ea.y < eb.y {
            0i32
        } else {
            180i32
        };
        let c = emit::snapped_pt(origin.x + (n - 1) * BANK_PITCH, origin.y as int);
        let (ta, tb) = (turned(ea, angle), turned(eb, angle));
        BankV {
            g: covering(covering(placing(s.g, r, c, angle), r, ap), r, bp),
            top: s.top.push(emit::snapped_pt(c.x + ta.x, c.y + ta.y)),
            bot: s.bot.push(emit::snapped_pt(c.x + tb.x, c.y + tb.y)),
        }
    }
}

pub open spec fn highest(v: Seq<Pt>, n: int) -> int
    decreases n,
{
    if n <= 1 {
        v[0].y as int
    } else {
        geom::lo(highest(v, n - 1), v[n - 1].y as int)
    }
}

pub open spec fn lowest(v: Seq<Pt>, n: int) -> int
    decreases n,
{
    if n <= 1 {
        v[0].y as int
    } else {
        geom::hi(lowest(v, n - 1), v[n - 1].y as int)
    }
}

/// The drawing with the drops of the first `n` pin ends to a bus, and dots where they meet it, but
/// for the last.
pub open spec fn dropped(g: GeomV, v: Seq<Pt>, y: i64, net: Seq<char>, n: int) -> GeomV
    decreases n,
{
    if n <= 0 {
        g
    } else {
        let x = dropped(g, v, y, net, n - 1);
        let on = Pt { x: v[n - 1].x, y };
        GeomV {
            wires: x.wires.push((v[n - 1], on, net)),
            junctions: if n < v.len() {
                x.junctions.push(on)
            } else {
                x.junctions
            },
            ..x
        }
    }
}

/// The drawing with a bus: the drops, the bus itself and one power symbol.
pub open spec fn bussed(g: GeomV, v: Seq<Pt>, y: i64, net: Seq<char>) -> GeomV {
    let x = dropped(g, v, y, net, v.len() as int);
    let (a, b) = (Pt { x: v[0].x, y }, Pt { x: v.last().x, y });
    GeomV { wires: x.wires.push((a, b, net)), ports: x.ports.push((net, a)), ..x }
}

/// The drawing with a bank.
pub open spec fn bank_drawn(
    g: GeomV,
    b: Block,
    bank: Bank,
    origin: Pt,
    ends: Seq<(String, String, Pt)>,
) -> GeomV {
    let s = banked(g, b, bank, origin, ends, bank.members@.len() as int);
    let up = orient::cut(highest(s.top, s.top.len() as int) - BUS_DROP);
    let low = orient::cut(lowest(s.bot, s.bot.len() as int) + BUS_DROP);
    let x = bussed(bussed(s.g, s.top, up, bank.a_net@), s.bot, low, bank.b_net@);
    GeomV {
        tap_points: order_map::put(x.tap_points, bank.a_net@, Pt { x: s.top[0].x, y: up }),
        ..x
    }
}

fn draw_bus(g: &mut ClusterGeom, v: &Vec<Pt>, y: i64, net: &str)
    requires
        v@.len() > 0,
    ensures
        final(g)@ == bussed(old(g)@, v@, y, net@),
{
    let ghost g0 = g@;
    let n = v.len();
    let mut i: usize = 0;
    while i < n
        invariant
            i <= n == v@.len(),
            g@ == dropped(g0, v@, y, net@, i as int),
        decreases n - i,
    {
        let ghost x = g@;
        let on = Pt { x: v[i].x, y };
        g.wires.push((v[i], on, net.to_owned()));
        assert(wires_v(g.wires@) =~= x.wires.push((v@[i as int], on, net@)));
        if i + 1 < n {
            g.junctions.push(on);
        }
        assert(g@ =~= dropped(g0, v@, y, net@, i + 1));
        i += 1;
    }
    let ghost x = g@;
    let (a, b) = (Pt { x: v[0].x, y }, Pt { x: v[n - 1].x, y });
    g.wires.push((a, b, net.to_owned()));
    assert(wires_v(g.wires@) =~= x.wires.push((a, b, net@)));
    g.ports.push((net.to_owned(), a));
    assert(reconcile::named(g.ports@) =~= x.ports.push((net@, a)));
    assert(g@ =~= bussed(g0, v@, y, net@));
}

/// Draws a bank: its members side by side between two buses, one power symbol on each.
pub fn emit_bank(g: &mut ClusterGeom, bank: &Bank, origin: Pt, block: &Block, ends: &PinEnds)
    requires
        bank_ok(*block, *bank),
    ensures
        final(g)@ == bank_drawn(old(g)@, *block, *bank, origin, ends@),
{
    let ghost g0 = g@;
    let mut top: Vec<Pt> = Vec::new();
    let mut bot: Vec<Pt> = Vec::new();
    let mut i: usize = 0;
    assert((BankV { g: g@, top: top@, bot: bot@ }) =~= banked(g0, *block, *bank, origin, ends@, 0));
    while i < bank.members.len()
        invariant
            i <= bank.members@.len(),
            bank_ok(*block, *bank),
            top@.len() == i,
            bot@.len() == i,
            (BankV { g: g@, top: top@, bot: bot@ }) == banked(
                g0,
                *block,
                *bank,
                origin,
                ends@,
                i as int,
            ),
        decreases bank.members@.len() - i,
    {
        let r = bank.members[i].as_str();
        assert(member_pins(*block, *bank, i as int) is Some);
        if let Some(c) = find_named(&block.components, r) {
            if let Some((ap, bp)) = pin_split(c, bank.a_net.as_str()) {
                let ea = find_end(ends, r, ap.as_str(), true);
                let eb = find_end(ends, r, bp.as_str(), false);
                let angle: i32 = if ea.y < eb.y { 0 } else { 180 };
                let at = snap_sum(
                    origin.x as i128 + (i as i128) * (BANK_PITCH as i128),
                    origin.y as i128,
                );
                g.place(r, at, angle);
                g.cover(r, ap.as_str());
                g.cover(r, bp.as_str());
                let (ta, tb) = (turn(ea, angle), turn(eb, angle));
                top.push(snap_sum(at.x as i128 + ta.x as i128, at.y as i128 + ta.y as i128));
                bot.push(snap_sum(at.x as i128 + tb.x as i128, at.y as i128 + tb.y as i128));
            }
        }
        i += 1;
    }
    let mut hi = top[0].y;
    let mut lo = bot[0].y;
    let mut k: usize = 1;
    while k < top.len()
        invariant
            1 <= k <= top@.len() == bot@.len(),
            hi == highest(top@, k as int),
            lo == lowest(bot@, k as int),
        decreases top@.len() - k,
    {
        hi = min_i(hi, top[k].y);
        lo = max_i(lo, bot[k].y);
        k += 1;
    }
    let up = cut_wide(hi as i128 - BUS_DROP as i128);
    let low = cut_wide(lo as i128 + BUS_DROP as i128);
    draw_bus(g, &top, up, bank.a_net.as_str());
    draw_bus(g, &bot, low, bank.b_net.as_str());
    let ghost x = g@;
    let at = Pt { x: top[0].x, y: up };
    let j = seek_name(&g.tap_points, bank.a_net.as_str());
    if j < g.tap_points.len() {
        g.tap_points.set(j, (bank.a_net.clone(), at));
    } else {
        g.tap_points.push((bank.a_net.clone(), at));
    }
    assert(reconcile::named(g.tap_points@) =~= order_map::put(x.tap_points, bank.a_net@, at));
    assert(g@ =~= bank_drawn(g0, *block, *bank, origin, ends@));
}

// ---------------------------------------------------------------- membership
#[verifier::ext_equal]
pub struct MemberV {
    pub cluster_key: Seq<char>,
    pub cluster_idx: usize,
    pub local: Pt,
    pub angle: i32,
}

impl View for MemberInfo {
    type V = MemberV;

    open spec fn view(&self) -> MemberV {
        MemberV {
            cluster_key: self.cluster_key@,
            cluster_idx: self.cluster_idx,
            local: self.local,
            angle: self.angle,
        }
    }
}

pub type MembersV = Seq<(Seq<char>, MemberV)>;

pub open spec fn members_v(v: Seq<(String, MemberInfo)>) -> MembersV {
    Seq::new(v.len(), |i: int| (v[i].0@, v[i].1@))
}

/// The members with those of the first `n` placements of a cluster.
pub open spec fn joined_members(
    m: MembersV,
    key: Seq<char>,
    ci: usize,
    v: Seq<(String, Pt, i32)>,
    n: int,
) -> MembersV
    decreases n,
{
    if n <= 0 {
        m
    } else {
        order_map::put(
            joined_members(m, key, ci, v, n - 1),
            v[n - 1].0@,
            MemberV { cluster_key: key, cluster_idx: ci, local: v[n - 1].1, angle: v[n - 1].2 },
        )
    }
}

/// The members of the first `n` clusters of a block.
pub open spec fn block_members(m: MembersV, block: Seq<char>, v: Seq<ClusterGeom>, n: int) -> MembersV
    decreases n,
{
    if n <= 0 {
        m
    } else {
        joined_members(
            block_members(m, block, v, n - 1),
            reconcile::key_of_cluster(block, (n - 1) as nat),
            (n - 1) as usize,
            v[n - 1].placements@,
            v[n - 1].placements@.len() as int,
        )
    }
}

/// The members of all clusters of the first `n` blocks.
pub open spec fn all_members(v: Seq<(String, Vec<ClusterGeom>)>, n: int) -> MembersV
    decreases n,
{
    if n <= 0 {
        Seq::empty()
    } else {
        block_members(all_members(v, n - 1), v[n - 1].0@, v[n - 1].1@, v[n - 1].1@.len() as int)
    }
}

fn join_member(m: &mut Vec<(String, MemberInfo)>, r: &str, info: MemberInfo)
    ensures
        members_v(final(m)@) == order_map::put(members_v(old(m)@), r@, info@),
{
    let ghost m0 = members_v(m@);
    let ghost iv = info@;
    let mut i: usize = 0;
    while i < m.len() && !same(m[i].0.as_str(), r)
        invariant
            i <= m@.len(),
            m0 == members_v(m@),
            order_map::seek(m0, r@, 0) == order_map::seek(m0, r@, i as int),
        decreases m@.len() - i,
    {
        assert(m0[i as int].0 == m@[i as int].0@);
        i += 1;
    }
    if i < m.len() {
        assert(m0[i as int].0 == m@[i as int].0@);
        m.set(i, (r.to_owned(), info));
        assert(members_v(m@) =~= m0.update(i as int, (r@, iv)));
    } else {
        m.push((r.to_owned(), info));
        assert(members_v(m@) =~= m0.push((r@, iv)));
    }
}

fn join_cluster(m: &mut Vec<(String, MemberInfo)>, block: &str, ci: usize, g: &ClusterGeom)
    ensures
        members_v(final(m)@) == joined_members(
            members_v(old(m)@),
            reconcile::key_of_cluster(block@, ci as nat),
            ci,
            g.placements@,
            g.placements@.len() as int,
        ),
{
    let ghost m0 = members_v(m@);
    let key = cluster_key(block, ci);
    let mut i: usize = 0;
    while i < g.placements.len()
        invariant
            i <= g.placements@.len(),
            key@ == reconcile::key_of_cluster(block@, ci as nat),
            members_v(m@) == joined_members(m0, key@, ci, g.placements@, i as int),
        decreases g.placements@.len() - i,
    {
        let p = &g.placements[i];
        let info = MemberInfo {
            cluster_key: key.clone(),
            cluster_idx: ci,
            local: p.1,
            angle: p.2,
        };
        assert(info@ =~= MemberV { cluster_key: key@, cluster_idx: ci, local: p.1, angle: p.2 });
        join_member(m, p.0.as_str(), info);
        i += 1;
    }
}

/// The members of all clusters, each with its cluster and its place there.
pub fn list_members(v: &Vec<(String, Vec<ClusterGeom>)>) -> (r: Vec<(String, MemberInfo)>)
    ensures
        members_v(r@) == all_members(v@, v@.len() as int),
{
    let mut r: Vec<(String, MemberInfo)> = Vec::new();
    let mut i: usize = 0;
    assert(members_v(r@) =~= Seq::empty());
    while i < v.len()
        invariant
            i <= v@.len(),
            members_v(r@) == all_members(v@, i as int),
        decreases v@.len() - i,
    {
        let ghost m0 = members_v(r@);
        let gs = &v[i].1;
        let mut c: usize = 0;
        while c < gs.len()
            invariant
                c <= gs@.len(),
                i < v@.len(),
                *gs == v@[i as int].1,
                members_v(r@) == block_members(m0, v@[i as int].0@, gs@, c as int),
            decreases gs@.len() - c,
        {
            join_cluster(&mut r, v[i].0.as_str(), c, &gs[c]);
            c += 1;
        }
        i += 1;
    }
    r
}

/// The pins that the first `n` clusters of a block cover.
pub open spec fn block_covered(v: Seq<ClusterGeom>, n: int) -> Seq<(Seq<char>, Seq<char>)>
    decreases n,
{
    if n <= 0 {
        Seq::empty()
    } else {
        block_covered(v, n - 1) + emit::pairs_v(v[n - 1].covered@)
    }
}

/// The pins that the clusters of the first `n` blocks cover.
pub open spec fn all_covered(v: Seq<(String, Vec<ClusterGeom>)>, n: int) -> Seq<
    (Seq<char>, Seq<char>),
>
    decreases n,
{
    if n <= 0 {
        Seq::empty()
    } else {
        all_covered(v, n - 1) + block_covered(v[n - 1].1@, v[n - 1].1@.len() as int)
    }
}

fn add_covered(out: &mut Vec<(String, String)>, v: &Vec<(String, String)>)
    ensures
        emit::pairs_v(final(out)@) == emit::pairs_v(old(out)@) + emit::pairs_v(v@),
{
    let ghost o = emit::pairs_v(out@);
    let ghost vv = emit::pairs_v(v@);
    let mut i: usize = 0;
    assert(o =~= o + vv.take(0));
    while i < v.len()
        invariant
            i <= v@.len(),
            vv == emit::pairs_v(v@),
            emit::pairs_v(out@) == o + vv.take(i as int),
        decreases v@.len() - i,
    {
        let ghost c = emit::pairs_v(out@);
        out.push((v[i].0.clone(), v[i].1.clone()));
        assert(emit::pairs_v(out@) =~= c.push(vv[i as int]));
        assert(emit::pairs_v(out@) =~= o + vv.take(i + 1));
        i += 1;
    }
    assert(vv.take(i as int) =~= vv);
}

/// The pins that clusters cover.
pub fn list_covered(v: &Vec<(String, Vec<ClusterGeom>)>) -> (r: Vec<(String, String)>)
    ensures
        emit::pairs_v(r@) == all_covered(v@, v@.len() as int),
{
    let mut r: Vec<(String, String)> = Vec::new();
    let mut i: usize = 0;
    assert(emit::pairs_v(r@) =~= Seq::empty());
    while i < v.len()
        invariant
            i <= v@.len(),
            emit::pairs_v(r@) == all_covered(v@, i as int),
        decreases v@.len() - i,
    {
        let ghost b = emit::pairs_v(r@);
        let gs = &v[i].1;
        let mut c: usize = 0;
        assert(emit::pairs_v(r@) =~= b + block_covered(gs@, 0));
        while c < gs.len()
            invariant
                c <= gs@.len(),
                emit::pairs_v(r@) == b + block_covered(gs@, c as int),
            decreases gs@.len() - c,
        {
            add_covered(&mut r, &gs[c].covered);
            assert(emit::pairs_v(r@) =~= b + block_covered(gs@, c + 1));
            c += 1;
        }
        i += 1;
    }
    r
}

} // verus!
