//! One functional group: its nets, its routing and its drawing.
use crate::engine;
use crate::engine::{is_power_net, PartInst};
use crate::geo;
use crate::geo::{is_gnd, Geo};
use crate::geom;
use crate::geom::{max_i, min_i, BBox, Dir, Pt};
use crate::group;
use crate::group::{dup_refs, has_key, outward, Drawn, DrawnV, Frame};
use crate::order;
use crate::order::order_by_name;
use crate::order_map;
use crate::order_map::{push_into, OrderMap};
use crate::symlib;
use crate::symlib::{SymbolIndex, TEXT_MAX};
use crate::text;
use crate::text::same;
use vstd::prelude::*;

verus! {

/// Places and wires the parts of one functional group.
#[derive(Debug)]
pub struct GroupLayout {
    pub frame: Frame,
    pub drawn: Drawn,
}

impl GroupLayout {
    pub open spec fn wf(&self) -> bool {
        self.frame.wf() && self.drawn.wf()
    }
}

/// The zone that the power stub of a pin needs.
pub open spec fn stub_zone(pos: Pt, d: Dir) -> BBox {
    let ex = pos.x + d.0 * 635_000;
    let ey = pos.y + d.1 * 635_000;
    engine::bx(
        geom::lo(pos.x as int, ex) - 190_500,
        geom::lo(pos.y as int, ey) - 190_500,
        geom::hi(pos.x as int, ex) + 190_500,
        geom::hi(pos.y as int, ey) + 190_500,
    )
}

/// The net of a pin, where it is drawn with power symbols.
pub open spec fn symbol_net(f: Frame, p: PartInst, k: int) -> Option<Seq<char>> {
    match p.net_spec(p.pins@[k].number@) {
        Some(net) => if net.len() > 0 && f.nets.has(net) && !f.signal_nets.has(net) {
            Some(net)
        } else {
            None
        },
        None => None,
    }
}

/// Stub zones of the first `k` pins of a part, each kept free for its net.
pub open spec fn part_zones(f: Frame, p: PartInst, k: int) -> Seq<(BBox, Option<Seq<char>>)>
    decreases k,
{
    if k <= 0 {
        Seq::empty()
    } else {
        let z = part_zones(f, p, k - 1);
        match symbol_net(f, p, k - 1) {
            Some(net) => z.push(
                (stub_zone(p.pos_spec(p.pins@[k - 1]), p.dir_spec(p.pins@[k - 1])), Some(net)),
            ),
            None => z,
        }
    }
}

/// Stub zones of the first `n` parts.
pub open spec fn all_zones(f: Frame, n: int) -> Seq<(BBox, Option<Seq<char>>)>
    decreases n,
{
    if n <= 0 {
        Seq::empty()
    } else {
        all_zones(f, n - 1) + part_zones(f, f.parts@[n - 1], f.parts@[n - 1].pins@.len() as int)
    }
}

/// The nets that are wired: the signals, then the supplies.
pub open spec fn wired_names(f: Frame) -> Seq<Seq<char>> {
    f.signal_nets.names() + f.supply_nets.names()
}

/// The pins of the `i`-th wired net.
pub open spec fn wired_pins(f: Frame, i: int) -> Seq<(usize, usize)> {
    let n = f.signal_nets.names().len() as int;
    if i < n {
        f.signal_nets.vals@[i]@
    } else {
        f.supply_nets.vals@[i - n]@
    }
}

pub open spec fn pin_counts(f: Frame) -> Seq<i64> {
    Seq::new(wired_names(f).len(), |i: int| wired_pins(f, i).len() as i64)
}

/// The wired nets in the order in which they are wired: fewer pins first, then by name.
pub open spec fn wiring_order(f: Frame) -> Seq<int> {
    order::by_name(pin_counts(f), wired_names(f))
}

/// The drawing and the labelled nets after the first `n` nets of the order.
pub open spec fn routed(f: Frame, st: DrawnV, n: int) -> (DrawnV, Seq<Seq<char>>)
    decreases n,
{
    if n <= 0 {
        (st, Seq::empty())
    } else {
        let (before, labels) = routed(f, st, n - 1);
        let i = wiring_order(f)[n - 1];
        let net = wired_names(f)[i];
        let (after, labelled) = group::net_spec(
            f,
            before,
            net,
            wired_pins(f, i),
            i >= f.signal_nets.names().len(),
        );
        (
            after,
            if labelled {
                labels.push(net)
            } else {
                labels
            },
        )
    }
}

/// The drawing with the stub zones reserved and the marks of earlier routing taken off.
pub open spec fn prepared(f: Frame, st: DrawnV) -> DrawnV {
    DrawnV {
        reserved: all_zones(f, f.parts@.len() as int),
        power_pins: Set::empty(),
        on_wire: Seq::empty(),
        ..st
    }
}

/// What routing a group does: the drawing afterwards and the nets that got a label.
pub open spec fn route_spec(f: Frame, st: DrawnV) -> (DrawnV, Seq<Seq<char>>) {
    routed(f, prepared(f, st), wired_names(f).len() as int)
}

pub open spec fn zones_ok(v: Seq<(BBox, Option<Seq<char>>)>) -> bool {
    forall|i: int| 0 <= i < v.len() ==> geom::box_ok((#[trigger] v[i]).0)
}

fn zone_of(pos: Pt, d: Dir) -> (b: BBox)
    requires
        symlib::tip_pt(pos),
        geom::is_dir(d),
    ensures
        b == stub_zone(pos, d),
        geom::box_ok(b),
{
    let e = outward(pos, d, 635_000);
    BBox {
        x0: min_i(pos.x, e.x) - 190_500,
        y0: min_i(pos.y, e.y) - 190_500,
        x1: max_i(pos.x, e.x) + 190_500,
        y1: max_i(pos.y, e.y) + 190_500,
    }
}

impl Frame {
    fn push_zones(&self, i: usize, out: &mut Vec<(BBox, Option<String>)>)
        requires
            self.wf(),
            i < self.parts@.len(),
            zones_ok(group::zones_v(old(out)@)),
        ensures
            zones_ok(group::zones_v(final(out)@)),
            group::zones_v(final(out)@) == group::zones_v(old(out)@) + part_zones(
                *self,
                self.parts@[i as int],
                self.parts@[i as int].pins@.len() as int,
            ),
    {
        let ghost z0 = group::zones_v(out@);
        let ghost part = self.parts@[i as int];
        let p = &self.parts[i];
        let mut k: usize = 0;
        assert(part.wf());
        assert(group::zones_v(out@) =~= z0 + part_zones(*self, part, 0));
        while k < p.pins.len()
            invariant
                k <= p.pins@.len(),
                *p == part,
                part.wf(),
                self.wf(),
                zones_ok(group::zones_v(out@)),
                group::zones_v(out@) == z0 + part_zones(*self, part, k as int),
            decreases p.pins@.len() - k,
        {
            let pin = &p.pins[k];
            assert(symlib::pin_ok(p.pins@[k as int]));
            if let Some(net) = p.pinmap.get(pin.number.as_str()) {
                if net.as_str().unicode_len() > 0 && self.nets.contains_key(net.as_str())
                    && !self.signal_nets.contains_key(net.as_str()) {
                    let pos = p.pin_pos(pin);
                    let d = p.pin_dir(pin);
                    let b = zone_of(pos, d);
                    let ghost before = out@;
                    out.push((b, Some(net.clone())));
                    proof {
                        let z = group::zones_v(before);
                        assert(group::zones_v(out@) =~= z.push((b, Some(net@))));
                        assert(group::zones_v(out@) =~= z0 + part_zones(*self, part, k + 1));
                        assert forall|j: int| 0 <= j < group::zones_v(out@).len() implies geom::box_ok(
                            (#[trigger] group::zones_v(out@)[j]).0,
                        ) by {
                            if j < z.len() {
                                assert(geom::box_ok(z[j].0));
                            }
                        }
                    }
                }
            }
            k += 1;
        }
    }

    fn stub_zones(&self) -> (r: Vec<(BBox, Option<String>)>)
        requires
            self.wf(),
        ensures
            group::zones_v(r@) == all_zones(*self, self.parts@.len() as int),
            zones_ok(group::zones_v(r@)),
    {
        let mut r: Vec<(BBox, Option<String>)> = Vec::new();
        let mut i: usize = 0;
        assert(group::zones_v(r@) =~= all_zones(*self, 0));
        while i < self.parts.len()
            invariant
                i <= self.parts@.len(),
                self.wf(),
                zones_ok(group::zones_v(r@)),
                group::zones_v(r@) == all_zones(*self, i as int),
            decreases self.parts@.len() - i,
        {
            self.push_zones(i, &mut r);
            i += 1;
        }
        r
    }
}

fn push_counts(m: &OrderMap<Vec<(usize, usize)>>, counts: &mut Vec<i64>, names: &mut Vec<String>)
    requires
        m.wf(),
        forall|i: int| 0 <= i < m.vals@.len() ==> (#[trigger] m.vals@[i])@.len() <= 0x100_0000,
    ensures
        final(counts)@ == old(counts)@ + Seq::new(
            m.names().len(),
            |i: int| m.vals@[i]@.len() as i64,
        ),
        text::views(final(names)@) == text::views(old(names)@) + m.names(),
{
    let ghost want = Seq::new(m.names().len(), |i: int| m.vals@[i]@.len() as i64);
    let ghost c0 = counts@;
    let ghost n0 = text::views(names@);
    let n: usize = m.len();
    let mut i: usize = 0;
    assert(counts@ =~= c0 + want.take(0));
    assert(text::views(names@) =~= n0 + m.names().take(0));
    while i < n
        invariant
            i <= n,
            n == m.names().len(),
            m.wf(),
            forall|i: int| 0 <= i < m.vals@.len() ==> (#[trigger] m.vals@[i])@.len() <= 0x100_0000,
            want == Seq::new(m.names().len(), |i: int| m.vals@[i]@.len() as i64),
            counts@ == c0 + want.take(i as int),
            text::views(names@) == n0 + m.names().take(i as int),
        decreases n - i,
    {
        let (name, lst) = m.entry_at(i);
        let ghost before = names@;
        assert(m.vals@[i as int]@.len() <= 0x100_0000);
        counts.push(lst.len() as i64);
        names.push(name.clone());
        proof {
            assert(want.take(i + 1) =~= want.take(i as int).push(want[i as int]));
            assert(m.names().take(i + 1) =~= m.names().take(i as int).push(m.names()[i as int]));
            assert(text::views(names@) =~= text::views(before).push(name@));
            assert(counts@ =~= c0 + want.take(i + 1));
            assert(text::views(names@) =~= n0 + m.names().take(i + 1));
        }
        i += 1;
    }
    assert(want.take(n as int) =~= want);
    assert(m.names().take(n as int) =~= m.names());
}

impl GroupLayout {
    /// Wires the nets of the group and puts net labels where a wire would snake; returns the nets
    /// that got a label.
    #[verifier::rlimit(60)]
    #[verifier::spinoff_prover]
    pub fn route(&mut self) -> (r: Vec<String>)
        requires
            old(self).wf(),
        ensures
            final(self).wf(),
            final(self).frame == old(self).frame,
            (final(self).drawn@, text::views(r@)) == route_spec(old(self).frame, old(self).drawn@),
    {
        let ghost f = self.frame;
        let ghost st0 = self.drawn@;
        let zones = self.frame.stub_zones();
        self.drawn.reserved = zones;
        self.drawn.power_symbol_pins = Vec::new();
        self.drawn.symbol_on_wire = Vec::new();
        proof {
            assert(group::keys_v(self.drawn.power_symbol_pins@) =~= Set::empty());
            assert(group::marks_v(self.drawn.symbol_on_wire@) =~= Seq::empty());
            assert(self.drawn@ =~= prepared(f, st0));
        }
        let mut counts: Vec<i64> = Vec::new();
        let mut names: Vec<String> = Vec::new();
        push_counts(&self.frame.signal_nets, &mut counts, &mut names);
        push_counts(&self.frame.supply_nets, &mut counts, &mut names);
        let first_supply: usize = self.frame.signal_nets.len();
        proof {
            assert(text::views(names@) =~= wired_names(f));
            assert(counts@ =~= pin_counts(f));
        }
        let order = order_by_name(&counts, &names);
        let ghost start = prepared(f, st0);
        let mut labels: Vec<String> = Vec::new();
        let mut n: usize = 0;
        assert(text::views(labels@) =~= Seq::empty());
        while n < order.len()
            invariant
                n <= order@.len(),
                self.wf(),
                self.frame == f,
                first_supply == f.signal_nets.names().len(),
                order@.len() == wired_names(f).len(),
                text::views(names@) == wired_names(f),
                order::as_ints(order@) == wiring_order(f),
                forall|i: int| 0 <= i < order@.len() ==> #[trigger] order@[i] < names@.len(),
                (self.drawn@, text::views(labels@)) == routed(f, start, n as int),
            decreases order@.len() - n,
        {
            let i: usize = order[n];
            assert(i < names@.len());
            assert(order::as_ints(order@)[n as int] == i);
            assert(text::views(names@)[i as int] == wired_names(f)[i as int]);
            let supply = i >= first_supply;
            let lst: Vec<(usize, usize)> = if supply {
                let (_, l) = self.frame.supply_nets.entry_at(i - first_supply);
                assert(group::refs_ok(
                    f.parts@,
                    f.supply_nets.vals@[i - first_supply]@,
                ));
                assert(f.supply_nets.names()[i - first_supply].len() <= TEXT_MAX);
                dup_refs(l)
            } else {
                let (_, l) = self.frame.signal_nets.entry_at(i);
                assert(group::refs_ok(f.parts@, f.signal_nets.vals@[i as int]@));
                assert(f.signal_nets.names()[i as int].len() <= TEXT_MAX);
                dup_refs(l)
            };
            let labelled = self.frame.route_net(&mut self.drawn, names[i].as_str(), &lst, supply);
            if labelled {
                let ghost before = labels@;
                labels.push(names[i].clone());
                assert(text::views(labels@) =~= text::views(before).push(names@[i as int]@));
            }
            n += 1;
        }
        labels
    }
}

/// Longest wire that is drawn unless a caller raises the limit.
pub const MAX_WIRE: i64 = 4_064_000;

/// The net that a pin is on; open and floating pins are on none.
pub open spec fn connected_net(p: PartInst, k: int) -> Option<Seq<char>> {
    match p.net_spec(p.pins@[k].number@) {
        Some(net) => if net != "nc"@ && net != "float"@ && net.len() > 0 {
            Some(net)
        } else {
            None
        },
        None => None,
    }
}

/// The nets met so far, joined by the first `k` pins of part `i`.
pub open spec fn part_nets(
    m: Seq<(Seq<char>, Seq<(usize, usize)>)>,
    p: PartInst,
    i: int,
    k: int,
) -> Seq<(Seq<char>, Seq<(usize, usize)>)>
    decreases k,
{
    if k <= 0 {
        m
    } else {
        let before = part_nets(m, p, i, k - 1);
        match connected_net(p, k - 1) {
            Some(net) => order_map::push_to(before, net, (i as usize, (k - 1) as usize)),
            None => before,
        }
    }
}

/// The nets of the first `n` parts, each with its pins.
pub open spec fn nets_of(parts: Seq<PartInst>, n: int) -> Seq<(Seq<char>, Seq<(usize, usize)>)>
    decreases n,
{
    if n <= 0 {
        Seq::empty()
    } else {
        part_nets(nets_of(parts, n - 1), parts[n - 1], n - 1, parts[n - 1].pins@.len() as int)
    }
}

/// A supply net: drawn with power symbols, and no ground.
pub open spec fn supply_net(net: Seq<char>, power: Seq<Seq<char>>, index: SymbolIndex) -> bool {
    engine::power_net(net, power, index) && !geo::gnd_spec(net) && net != "PWR_FLAG"@
}

/// The supply nets, or the signal nets, among the first `n` nets.
pub open spec fn kept_nets(
    m: Seq<(Seq<char>, Seq<(usize, usize)>)>,
    supply: bool,
    power: Seq<Seq<char>>,
    index: SymbolIndex,
    n: int,
) -> Seq<(Seq<char>, Seq<(usize, usize)>)>
    decreases n,
{
    if n <= 0 {
        Seq::empty()
    } else {
        let before = kept_nets(m, supply, power, index, n - 1);
        let net = m[n - 1].0;
        if (supply && supply_net(net, power, index)) || (!supply && !engine::power_net(
            net,
            power,
            index,
        )) {
            order_map::put(before, net, m[n - 1].1)
        } else {
            before
        }
    }
}

/// Every connected pin of the part is on a power net, and there is one.
pub open spec fn only_power(p: PartInst, power: Seq<Seq<char>>, index: SymbolIndex) -> bool {
    &&& exists|k: int| 0 <= k < p.pins@.len() && #[trigger] connected_net(p, k) is Some
    &&& forall|k: int|
        0 <= k < p.pins@.len() ==> match #[trigger] connected_net(p, k) {
            Some(net) => engine::power_net(net, power, index),
            None => true,
        }
}

pub open spec fn all_power(parts: Seq<PartInst>, power: Seq<Seq<char>>, index: SymbolIndex) -> bool {
    forall|i: int| 0 <= i < parts.len() ==> only_power(#[trigger] parts[i], power, index)
}

/// How far a label or power symbol at a pin is expected to reach.
pub open spec fn reach_of(
    p: PartInst,
    k: int,
    signals: Seq<(Seq<char>, Seq<(usize, usize)>)>,
    all_nets: Seq<(String, u64)>,
    labels: Seq<(String, String)>,
    net: Seq<char>,
) -> int {
    match order_map::look(signals, net) {
        Some(here) => {
            let cross = group::total_pins(all_nets, net, 0) > here.len() || here.len() == 1;
            let known = group::keys_v(labels).contains((p.id@, p.pins@[k].number@));
            if known || (cross && (labels.len() == 0 || here.len() == 1)) {
                381_000 + 114_300 * (net.len() as int)
            } else {
                0
            }
        },
        None => 762_000,
    }
}

/// The expected reaches of the first `k` pins.
pub open spec fn reaches(
    p: PartInst,
    signals: Seq<(Seq<char>, Seq<(usize, usize)>)>,
    all_nets: Seq<(String, u64)>,
    labels: Seq<(String, String)>,
    k: int,
) -> Seq<(Seq<char>, i64)>
    decreases k,
{
    if k <= 0 {
        Seq::empty()
    } else {
        let before = reaches(p, signals, all_nets, labels, k - 1);
        match connected_net(p, k - 1) {
            Some(net) => order_map::put(
                before,
                p.pins@[k - 1].number@,
                reach_of(p, k - 1, signals, all_nets, labels, net) as i64,
            ),
            None => before,
        }
    }
}

pub open spec fn pin_total(parts: Seq<PartInst>, n: int) -> int
    decreases n,
{
    if n <= 0 {
        0
    } else {
        pin_total(parts, n - 1) + parts[n - 1].pins@.len()
    }
}

/// Net names of a size that can be drawn.
pub open spec fn net_names_ok(p: PartInst) -> bool {
    forall|i: int| 0 <= i < p.pinmap.vals@.len() ==> (#[trigger] p.pinmap.vals@[i])@.len() <= TEXT_MAX
}

pub open spec fn lists_fit(m: Seq<(Seq<char>, Seq<(usize, usize)>)>, parts: Seq<PartInst>, c: int) -> bool {
    forall|i: int|
        0 <= i < m.len() ==> group::refs_ok(parts, (#[trigger] m[i]).1) && m[i].1.len() <= c
            && m[i].0.len() <= TEXT_MAX
}

proof fn lemma_put_fits(
    m: Seq<(Seq<char>, Seq<(usize, usize)>)>,
    k: Seq<char>,
    v: Seq<(usize, usize)>,
    parts: Seq<PartInst>,
    c: int,
)
    requires
        lists_fit(m, parts, c),
        group::refs_ok(parts, v),
        v.len() <= c,
        k.len() <= TEXT_MAX,
    ensures
        lists_fit(order_map::put(m, k, v), parts, c),
{
    order_map::lemma_seek(m, k, 0);
    let n = order_map::put(m, k, v);
    let at = order_map::seek(m, k, 0);
    assert forall|i: int| 0 <= i < n.len() implies group::refs_ok(parts, (#[trigger] n[i]).1)
        && n[i].1.len() <= c && n[i].0.len() <= TEXT_MAX by {
        if i != at {
            assert(n[i] == m[i]);
        }
    }
}

proof fn lemma_push_fits(
    m: Seq<(Seq<char>, Seq<(usize, usize)>)>,
    k: Seq<char>,
    x: (usize, usize),
    parts: Seq<PartInst>,
    c: int,
)
    requires
        lists_fit(m, parts, c),
        x.0 < parts.len(),
        x.1 < parts[x.0 as int].pins@.len(),
        k.len() <= TEXT_MAX,
        c >= 0,
    ensures
        lists_fit(order_map::push_to(m, k, x), parts, c + 1),
{
    order_map::lemma_seek(m, k, 0);
    let at = order_map::seek(m, k, 0);
    let v = match order_map::look(m, k) {
        Some(l) => l.push(x),
        None => seq![x],
    };
    if at < m.len() {
        assert(group::refs_ok(parts, m[at].1));
        assert forall|i: int| 0 <= i < v.len() implies (#[trigger] v[i]).0 < parts.len() && v[i].1
            < parts[v[i].0 as int].pins@.len() by {
            if i < m[at].1.len() {
                assert(v[i] == m[at].1[i]);
            }
        }
    }
    assert forall|i: int| 0 <= i < m.len() implies group::refs_ok(parts, (#[trigger] m[i]).1)
        && m[i].1.len() <= c + 1 && m[i].0.len() <= TEXT_MAX by {
    }
    lemma_put_fits(m, k, v, parts, c + 1);
}

pub(crate) fn net_of_pin(p: &PartInst, k: usize) -> (r: Option<String>)
    requires
        p.wf(),
        k < p.pins@.len(),
        net_names_ok(*p),
    ensures
        match r {
            Some(n) => connected_net(*p, k as int) == Some(n@) && n@.len() <= TEXT_MAX,
            None => connected_net(*p, k as int) is None,
        },
{
    match p.pinmap.get(p.pins[k].number.as_str()) {
        Some(net) => {
            proof {
                order_map::lemma_first_of(p.pinmap.names(), p.pins@[k as int].number@);
                assert(p.pinmap.vals@[p.pinmap.at(p.pins@[k as int].number@)]@.len() <= TEXT_MAX);
            }
            if same(net.as_str(), "nc") || same(net.as_str(), "float")
                || net.as_str().unicode_len() == 0 {
                None
            } else {
                Some(net.clone())
            }
        },
        None => None,
    }
}

fn group_nets(parts: &Vec<PartInst>) -> (r: OrderMap<Vec<(usize, usize)>>)
    requires
        group::parts_ok(parts@),
        forall|i: int| 0 <= i < parts@.len() ==> net_names_ok(#[trigger] parts@[i]),
        pin_total(parts@, parts@.len() as int) <= 0x100_0000,
    ensures
        r.wf(),
        order_map::list_pairs(r) == nets_of(parts@, parts@.len() as int),
        lists_fit(order_map::list_pairs(r), parts@, 0x100_0000),
{
    let mut r: OrderMap<Vec<(usize, usize)>> = OrderMap::new();
    let mut i: usize = 0;
    assert(order_map::list_pairs(r) =~= nets_of(parts@, 0));
    while i < parts.len()
        invariant
            i <= parts@.len(),
            group::parts_ok(parts@),
            forall|i: int| 0 <= i < parts@.len() ==> net_names_ok(#[trigger] parts@[i]),
            r.wf(),
            order_map::list_pairs(r) == nets_of(parts@, i as int),
            lists_fit(order_map::list_pairs(r), parts@, pin_total(parts@, i as int)),
            pin_total(parts@, i as int) >= 0,
        decreases parts@.len() - i,
    {
        let p = &parts[i];
        assert(parts@[i as int].wf() && net_names_ok(parts@[i as int]));
        let ghost m0 = order_map::list_pairs(r);
        let ghost c0 = pin_total(parts@, i as int);
        let mut k: usize = 0;
        while k < p.pins.len()
            invariant
                k <= p.pins@.len(),
                i < parts@.len(),
                *p == parts@[i as int],
                p.wf(),
                net_names_ok(*p),
                r.wf(),
                c0 >= 0,
                order_map::list_pairs(r) == part_nets(m0, *p, i as int, k as int),
                lists_fit(order_map::list_pairs(r), parts@, c0 + k),
            decreases p.pins@.len() - k,
        {
            let ghost m = order_map::list_pairs(r);
            match net_of_pin(p, k) {
                Some(net) => {
                    push_into(&mut r, net.as_str(), (i, k));
                    proof {
                        lemma_push_fits(m, net@, (i, k), parts@, c0 + k);
                    }
                },
                None => {
                    assert(forall|j: int|
                        0 <= j < m.len() ==> group::refs_ok(parts@, (#[trigger] m[j]).1) && m[j].1.len()
                            <= c0 + k && m[j].0.len() <= TEXT_MAX);
                },
            }
            k += 1;
        }
        i += 1;
    }
    r
}

fn select_nets(
    m: &OrderMap<Vec<(usize, usize)>>,
    supply: bool,
    power: &Vec<String>,
    index: &SymbolIndex,
    Ghost(parts): Ghost<Seq<PartInst>>,
) -> (r: OrderMap<Vec<(usize, usize)>>)
    requires
        m.wf(),
        lists_fit(order_map::list_pairs(*m), parts, 0x100_0000),
    ensures
        r.wf(),
        order_map::list_pairs(r) == kept_nets(
            order_map::list_pairs(*m),
            supply,
            text::views(power@),
            *index,
            order_map::list_pairs(*m).len() as int,
        ),
        lists_fit(order_map::list_pairs(r), parts, 0x100_0000),
{
    let ghost ms = order_map::list_pairs(*m);
    let mut r: OrderMap<Vec<(usize, usize)>> = OrderMap::new();
    let n: usize = m.len();
    let mut i: usize = 0;
    assert(order_map::list_pairs(r) =~= Seq::empty());
    while i < n
        invariant
            i <= n,
            n == ms.len(),
            m.wf(),
            ms == order_map::list_pairs(*m),
            lists_fit(ms, parts, 0x100_0000),
            r.wf(),
            order_map::list_pairs(r) == kept_nets(ms, supply, text::views(power@), *index, i as int),
            lists_fit(order_map::list_pairs(r), parts, 0x100_0000),
        decreases n - i,
    {
        let (name, lst) = m.entry_at(i);
        let net = name.as_str();
        assert(ms[i as int] == (net@, lst@));
        let rail = is_power_net(net, power, index);
        let keep = if supply {
            rail && !is_gnd(net) && !same(net, "PWR_FLAG")
        } else {
            !rail
        };
        if keep {
            let ghost r0 = r;
            let v = dup_refs(lst);
            r.insert(net, v);
            proof {
                order_map::lemma_list_put(r0, r, net@, v);
                lemma_put_fits(order_map::list_pairs(r0), net@, v@, parts, 0x100_0000);
            }
        }
        i += 1;
    }
    r
}

fn is_only_power(p: &PartInst, power: &Vec<String>, index: &SymbolIndex) -> (r: bool)
    requires
        p.wf(),
        net_names_ok(*p),
    ensures
        r == only_power(*p, text::views(power@), *index),
{
    let mut any = false;
    let mut k: usize = 0;
    while k < p.pins.len()
        invariant
            k <= p.pins@.len(),
            p.wf(),
            net_names_ok(*p),
            any == exists|j: int| 0 <= j < k && #[trigger] connected_net(*p, j) is Some,
            forall|j: int|
                0 <= j < k ==> match #[trigger] connected_net(*p, j) {
                    Some(net) => engine::power_net(net, text::views(power@), *index),
                    None => true,
                },
        decreases p.pins@.len() - k,
    {
        match net_of_pin(p, k) {
            Some(net) => {
                if !is_power_net(net.as_str(), power, index) {
                    assert(!match connected_net(*p, k as int) {
                        Some(net) => engine::power_net(net, text::views(power@), *index),
                        None => true,
                    });
                    return false;
                }
                any = true;
                assert(connected_net(*p, k as int) is Some);
            },
            None => {
                assert(connected_net(*p, k as int) is None);
            },
        }
        k += 1;
    }
    any
}

fn expected_reaches(
    p: &PartInst,
    signals: &OrderMap<Vec<(usize, usize)>>,
    frame: &Frame,
) -> (r: OrderMap<i64>)
    requires
        p.wf(),
        net_names_ok(*p),
        signals.wf(),
    ensures
        r.wf(),
        order_map::plain_pairs(r) == reaches(
            *p,
            order_map::list_pairs(*signals),
            frame.all_nets@,
            frame.label_pins@,
            p.pins@.len() as int,
        ),
        forall|i: int| 0 <= i < r.vals@.len() ==> 0 <= #[trigger] r.vals@[i] <= symlib::NEAR_MAX,
{
    let ghost sigs = order_map::list_pairs(*signals);
    let mut r: OrderMap<i64> = OrderMap::new();
    let mut k: usize = 0;
    assert(order_map::plain_pairs(r) =~= Seq::empty());
    while k < p.pins.len()
        invariant
            k <= p.pins@.len(),
            p.wf(),
            net_names_ok(*p),
            signals.wf(),
            sigs == order_map::list_pairs(*signals),
            r.wf(),
            order_map::plain_pairs(r) == reaches(
                *p,
                sigs,
                frame.all_nets@,
                frame.label_pins@,
                k as int,
            ),
            forall|i: int| 0 <= i < r.vals@.len() ==> 0 <= #[trigger] r.vals@[i] <= symlib::NEAR_MAX,
        decreases p.pins@.len() - k,
    {
        if let Some(net) = net_of_pin(p, k) {
            let number = p.pins[k].number.as_str();
            proof {
                order_map::lemma_list_found(*signals, net@);
            }
            let reach: i64 = match signals.get(net.as_str()) {
                Some(here) => {
                    let n: usize = here.len();
                    let cross = frame.count_pins(net.as_str()) > n as u64 || n == 1;
                    if has_key(&frame.label_pins, p.id.as_str(), number) || (cross && (
                    frame.label_pins.len() == 0 || n == 1)) {
                        381_000 + 114_300 * (net.as_str().unicode_len() as i64)
                    } else {
                        0
                    }
                },
                None => 762_000,
            };
            assert(reach == reach_of(*p, k as int, sigs, frame.all_nets@, frame.label_pins@, net@));
            let ghost r0 = r;
            r.insert(number, reach);
            proof {
                order_map::lemma_plain_put(r0, r, number@, reach);
                order_map::lemma_first_of(r0.names(), number@);
            }
        }
        k += 1;
    }
    r
}

/// The part with its power role and expected reaches filled in.
pub open spec fn prepared_part(before: PartInst, after: PartInst, power_only: bool, reach: Seq<(Seq<char>, i64)>) -> bool {
    &&& after == (PartInst { power_only: after.power_only, attach: after.attach, ..before })
    &&& after.power_only == power_only
    &&& order_map::plain_pairs(after.attach) == reach
}

impl GroupLayout {
    /// Sorts the nets of the parts into signals and supplies, and notes for each part whether it
    /// only bridges rails and how far labels and power symbols at its pins will reach.
    pub fn new(
        parts: Vec<PartInst>,
        power: Vec<String>,
        flags: Vec<String>,
        all_nets: Vec<(String, u64)>,
        label_pins: Vec<(String, String)>,
        index: &SymbolIndex,
    ) -> (r: GroupLayout)
        requires
            group::parts_ok(parts@),
            parts@.len() <= 0x10_0000,
            forall|i: int| 0 <= i < parts@.len() ==> net_names_ok(#[trigger] parts@[i]),
            pin_total(parts@, parts@.len() as int) <= 0x100_0000,
        ensures
            r.wf(),
            r.frame.power@ == power@,
            r.frame.flags@ == flags@,
            r.frame.all_nets@ == all_nets@,
            r.frame.label_pins@ == label_pins@,
            r.frame.max_wire == MAX_WIRE,
            r.frame.long_simple,
            order_map::list_pairs(r.frame.nets) == nets_of(parts@, parts@.len() as int),
            order_map::list_pairs(r.frame.signal_nets) == kept_nets(
                order_map::list_pairs(r.frame.nets),
                false,
                text::views(power@),
                *index,
                order_map::list_pairs(r.frame.nets).len() as int,
            ),
            order_map::list_pairs(r.frame.supply_nets) == kept_nets(
                order_map::list_pairs(r.frame.nets),
                true,
                text::views(power@),
                *index,
                order_map::list_pairs(r.frame.nets).len() as int,
            ),
            r.frame.pure_power_group == all_power(parts@, text::views(power@), *index),
            r.frame.parts@.len() == parts@.len(),
            forall|i: int|
                0 <= i < parts@.len() ==> prepared_part(
                    parts@[i],
                    #[trigger] r.frame.parts@[i],
                    only_power(parts@[i], text::views(power@), *index)
                        && !r.frame.pure_power_group,
                    reaches(
                        parts@[i],
                        order_map::list_pairs(r.frame.signal_nets),
                        all_nets@,
                        label_pins@,
                        parts@[i].pins@.len() as int,
                    ),
                ),
            r.drawn@ == DrawnV::empty(),
    {
        let ghost ps = parts@;
        let ghost pw = text::views(power@);
        let nets = group_nets(&parts);
        let signal_nets = select_nets(&nets, false, &power, index, Ghost(ps));
        let supply_nets = select_nets(&nets, true, &power, index, Ghost(ps));
        let mut rails: Vec<bool> = Vec::new();
        let mut pure = true;
        let mut i: usize = 0;
        while i < parts.len()
            invariant
                i <= parts@.len(),
                parts@ == ps,
                pw == text::views(power@),
                group::parts_ok(ps),
                forall|i: int| 0 <= i < ps.len() ==> net_names_ok(#[trigger] ps[i]),
                rails@.len() == i,
                forall|j: int| 0 <= j < i ==> #[trigger] rails@[j] == only_power(ps[j], pw, *index),
                pure == forall|j: int| 0 <= j < i ==> only_power(#[trigger] ps[j], pw, *index),
            decreases parts@.len() - i,
        {
            assert(ps[i as int].wf() && net_names_ok(ps[i as int]));
            let only = is_only_power(&parts[i], &power, index);
            rails.push(only);
            if !only {
                pure = false;
                assert(!only_power(ps[i as int], pw, *index));
            }
            i += 1;
        }
        let mut frame = Frame {
            parts: Vec::new(),
            all_nets,
            label_pins,
            power,
            flags,
            nets,
            signal_nets,
            supply_nets,
            pure_power_group: pure,
            max_wire: MAX_WIRE,
            long_simple: true,
        };
        let mut parts = parts;
        i = 0;
        while i < parts.len()
            invariant
                i <= parts@.len(),
                parts@.len() == ps.len(),
                rails@.len() == ps.len(),
                group::parts_ok(ps),
                group::parts_ok(parts@),
                forall|i: int| 0 <= i < ps.len() ==> net_names_ok(#[trigger] ps[i]),
                frame.signal_nets.wf(),
                forall|j: int| i <= j < ps.len() ==> #[trigger] parts@[j] == ps[j],
                forall|j: int|
                    0 <= j < i ==> prepared_part(
                        ps[j],
                        #[trigger] parts@[j],
                        rails@[j] && !pure,
                        reaches(
                            ps[j],
                            order_map::list_pairs(frame.signal_nets),
                            frame.all_nets@,
                            frame.label_pins@,
                            ps[j].pins@.len() as int,
                        ),
                    ),
            decreases ps.len() - i,
        {
            assert(ps[i as int].wf() && net_names_ok(ps[i as int]));
            assert(parts@[i as int] == ps[i as int]);
            let attach = expected_reaches(&parts[i], &frame.signal_nets, &frame);
            let only = rails[i] && !pure;
            let ghost before = parts@;
            parts[i].power_only = only;
            parts[i].attach = attach;
            proof {
                assert(parts@[i as int].wf());
                assert forall|j: int| 0 <= j < parts@.len() implies (#[trigger] parts@[j]).wf() by {
                    if j != i {
                        assert(parts@[j] == before[j]);
                        assert(before[j].wf());
                    }
                }
                assert forall|j: int| i + 1 <= j < ps.len() implies #[trigger] parts@[j] == ps[j] by {
                    assert(parts@[j] == before[j]);
                }
                assert forall|j: int| 0 <= j < i implies parts@[j] == before[j] by {
                }
            }
            i += 1;
        }
        proof {
            lemma_fit_nets(frame.nets, ps, parts@);
            lemma_fit_nets(frame.signal_nets, ps, parts@);
            lemma_fit_nets(frame.supply_nets, ps, parts@);
        }
        frame.parts = parts;
        let drawn = Drawn {
            wires: Vec::new(),
            net_wires: OrderMap::new(),
            labelled_pins: Vec::new(),
            wired_pins: Vec::new(),
            power_symbol_pins: Vec::new(),
            symbol_on_wire: Vec::new(),
            reserved: Vec::new(),
            geo: Geo::new(),
        };
        assert(drawn@ =~= DrawnV::empty());
        GroupLayout { frame, drawn }
    }
}

proof fn lemma_fit_nets(m: OrderMap<Vec<(usize, usize)>>, before: Seq<PartInst>, after: Seq<PartInst>)
    requires
        m.wf(),
        lists_fit(order_map::list_pairs(m), before, 0x100_0000),
        before.len() == after.len(),
        forall|i: int| 0 <= i < before.len() ==> (#[trigger] after[i]).pins@ == before[i].pins@,
    ensures
        group::nets_ok(after, m),
{
    let ms = order_map::list_pairs(m);
    assert forall|i: int| 0 <= i < m.vals@.len() implies group::refs_ok(after, (#[trigger] m.vals@[i])@)
        && m.vals@[i]@.len() <= 0x100_0000 by {
        assert(ms[i].1 == m.vals@[i]@);
        assert(group::refs_ok(before, ms[i].1));
        assert forall|j: int| 0 <= j < m.vals@[i]@.len() implies (#[trigger] m.vals@[i]@[j]).0
            < after.len() && m.vals@[i]@[j].1 < after[m.vals@[i]@[j].0 as int].pins@.len() by {
            assert(ms[i].1[j].0 < before.len());
        }
    }
    assert forall|i: int| 0 <= i < m.names().len() implies (#[trigger] m.names()[i]).len()
        <= TEXT_MAX by {
        assert(ms[i].0 == m.names()[i]);
    }
}

} // verus!
