//! Flexible layout: each block of a circuit is described as nested rows and columns of parts, and
//! drawn in coordinates of its own.
use crate::circuit;
use crate::circuit::{make_instance, make_instances, plan, strip_power_parts, Circuit, Plan, PlanV};
use crate::drawing;
use crate::engine;
use crate::engine::{PartInst, PartSpec};
use crate::geo;
use crate::geo::{Geo, GeoV, Session};
use crate::geom;
use crate::geom::{Pt, GRID};
use crate::group;
use crate::group::{DrawnV, Frame, PinKey};
use crate::layout;
use crate::layout::{net_of_pin, GroupLayout};
use crate::lint;
use crate::measure;
use crate::measure::{measure, place, Placement, WRAPS};
use crate::names;
use crate::names::name_set;
use crate::order_map;
use crate::orient;
use crate::pins;
use crate::symlib;
use crate::symlib::SymbolIndex;
use crate::text;
use crate::text::{contains, same, starts_with, upper, Line};
use crate::tree::{Tree, TreeV};
use vstd::prelude::*;

verus! {

/// Connections of a laid-out block longer than this become labels.
pub const BLOCK_WIRE: i64 = 5_588_000;

// ---------------------------------------------------------------- flags
/// How many of the first `n` pins noted for a part are on a net.
pub open spec fn pins_on(p: PartInst, net: Seq<char>, n: int) -> nat
    decreases n,
{
    if n <= 0 {
        0
    } else {
        pins_on(p, net, n - 1) + (if p.pinmap.vals@[n - 1]@ == net {
            1nat
        } else {
            0nat
        })
    }
}

pub open spec fn part_pins_on(p: PartInst, net: Seq<char>) -> nat {
    pins_on(p, net, p.pinmap.vals@.len() as int)
}

/// How many pins of the first `n` parts of a block are on a net.
pub open spec fn block_pins(parts: Seq<PartInst>, m: Seq<usize>, net: Seq<char>, n: int) -> nat
    decreases n,
{
    if n <= 0 {
        0
    } else {
        block_pins(parts, m, net, n - 1) + part_pins_on(parts[m[n - 1] as int], net)
    }
}

/// Whether a connector of the block is on the net.
pub open spec fn has_connector(parts: Seq<PartInst>, m: Seq<usize>, net: Seq<char>) -> bool {
    exists|k: int|
        0 <= k < m.len() && parts[#[trigger] m[k] as int].info.ref_prefix@ == "J"@ && part_pins_on(
            parts[m[k] as int],
            net,
        ) > 0
}

pub open spec fn power_title(t: Seq<char>) -> bool {
    let u = text::uppercase(t);
    text::has(u, "POWER"@) || text::has(u, "SUPPLY"@)
}

/// Whether a block is a better place for the flag of a net than another one: a power block first,
/// then one with a connector on the net, then the one with more pins on it.
pub open spec fn better_home(parts: Seq<PartInst>, net: Seq<char>, a: PlanV, b: PlanV) -> bool {
    let (ta, tb) = (power_title(a.block.title), power_title(b.block.title));
    let (ja, jb) = (has_connector(parts, a.members, net), has_connector(parts, b.members, net));
    let na = block_pins(parts, a.members, net, a.members.len() as int);
    let nb = block_pins(parts, b.members, net, b.members.len() as int);
    if ta != tb {
        ta
    } else if ja != jb {
        ja
    } else {
        na > nb
    }
}

/// The block among the first `n` that draws the flag of a net: the best, the first of equals.
pub open spec fn flag_home(parts: Seq<PartInst>, v: Seq<PlanV>, net: Seq<char>, n: int) -> Option<
    usize,
>
    decreases n,
{
    if n <= 0 {
        None
    } else {
        let b = flag_home(parts, v, net, n - 1);
        let p = v[n - 1];
        if block_pins(parts, p.members, net, p.members.len() as int) > 0 && match b {
            Some(i) => better_home(parts, net, p, v[i as int]),
            None => true,
        } {
            Some((n - 1) as usize)
        } else {
            b
        }
    }
}

/// The flags among the first `n` that a block draws.
pub open spec fn flags_at(
    parts: Seq<PartInst>,
    v: Seq<PlanV>,
    flags: Seq<Seq<char>>,
    bi: int,
    n: int,
) -> Seq<Seq<char>>
    decreases n,
{
    if n <= 0 {
        Seq::empty()
    } else {
        let rest = flags_at(parts, v, flags, bi, n - 1);
        match flag_home(parts, v, flags[n - 1], v.len() as int) {
            Some(i) => if i == bi {
                rest.push(flags[n - 1])
            } else {
                rest
            },
            None => rest,
        }
    }
}

/// The flags that a block draws, in order.
pub open spec fn flags_here(
    parts: Seq<PartInst>,
    v: Seq<PlanV>,
    flags: Seq<Seq<char>>,
    bi: int,
) -> Seq<Seq<char>> {
    let f = flags_at(parts, v, flags, bi, flags.len() as int);
    names::distinct(f, f.len() as int)
}

pub open spec fn within(m: Seq<usize>, n: int) -> bool {
    forall|k: int| 0 <= k < m.len() ==> #[trigger] m[k] < n
}

fn count_on(p: &PartInst, net: &str) -> (r: u128)
    requires
        p.wf(),
    ensures
        r == part_pins_on(*p, net@),
        r <= usize::MAX,
{
    let vals = p.pinmap.values();
    let mut r: u128 = 0;
    let mut i: usize = 0;
    while i < vals.len()
        invariant
            i <= vals@.len(),
            vals@ == p.pinmap.vals@,
            r <= i,
            r == pins_on(*p, net@, i as int),
        decreases vals@.len() - i,
    {
        if same(vals[i].as_str(), net) {
            r = r + 1;
        }
        i += 1;
    }
    r
}

struct Home {
    power: bool,
    connector: bool,
    pins: u128,
}

spec fn home_ok(parts: Seq<PartInst>, net: Seq<char>, p: PlanV, h: Home) -> bool {
    &&& h.power == power_title(p.block.title)
    &&& h.connector == has_connector(parts, p.members, net)
    &&& h.pins == block_pins(parts, p.members, net, p.members.len() as int)
}

fn find_home(parts: &Vec<PartInst>, net: &str, p: &Plan) -> (h: Home)
    requires
        circuit::all_fit(parts@),
        within(p.members@, parts@.len() as int),
    ensures
        home_ok(parts@, net@, p@, h),
{
    let up = upper(p.block.title.as_str());
    let power = contains(up.as_str(), "POWER") || contains(up.as_str(), "SUPPLY");
    let mut connector = false;
    let mut pins: u128 = 0;
    let mut i: usize = 0;
    while i < p.members.len()
        invariant
            i <= p.members@.len(),
            circuit::all_fit(parts@),
            within(p.members@, parts@.len() as int),
            pins == block_pins(parts@, p.members@, net@, i as int),
            pins <= i * usize::MAX,
            connector == exists|k: int|
                0 <= k < i && parts@[#[trigger] p.members@[k] as int].info.ref_prefix@ == "J"@
                    && part_pins_on(parts@[p.members@[k] as int], net@) > 0,
        decreases p.members@.len() - i,
    {
        let q = &parts[p.members[i]];
        assert(circuit::part_fits(parts@[p.members@[i as int] as int]));
        let n = count_on(q, net);
        assert(pins + n <= (i + 1) * usize::MAX) by (nonlinear_arith)
            requires
                pins <= i * usize::MAX,
                n <= usize::MAX,
        ;
        assert((i + 1) * usize::MAX <= u128::MAX) by (nonlinear_arith)
            requires
                i < usize::MAX,
                usize::MAX <= 0xffff_ffff_ffff_ffff,
        ;
        pins = pins + n;
        let hit = same(q.info.ref_prefix.as_str(), "J") && n > 0;
        if hit {
            assert(parts@[p.members@[i as int] as int].info.ref_prefix@ == "J"@);
            connector = true;
        }
        i += 1;
    }
    Home { power, connector, pins }
}

fn find_flag_home(parts: &Vec<PartInst>, v: &Vec<Plan>, net: &str) -> (r: Option<usize>)
    requires
        circuit::all_fit(parts@),
        circuit::members_ok(circuit::plans_v(v@), parts@.len() as int),
    ensures
        r == flag_home(parts@, circuit::plans_v(v@), net@, v@.len() as int),
{
    let ghost pv = circuit::plans_v(v@);
    let mut best: Option<usize> = None;
    let mut top = Home { power: false, connector: false, pins: 0 };
    let mut i: usize = 0;
    while i < v.len()
        invariant
            i <= v@.len(),
            circuit::all_fit(parts@),
            circuit::members_ok(pv, parts@.len() as int),
            pv == circuit::plans_v(v@),
            best == flag_home(parts@, pv, net@, i as int),
            best is Some ==> best->0 < i && home_ok(parts@, net@, pv[best->0 as int], top),
        decreases v@.len() - i,
    {
        assert(pv[i as int] == v@[i as int]@);
        assert forall|k: int| 0 <= k < v@[i as int].members@.len() implies #[trigger] v@[i as int].members@[k]
            < parts@.len() by {
            assert(pv[i as int].members[k] < parts@.len());
        }
        let h = find_home(parts, net, &v[i]);
        if h.pins > 0 {
            let better = match best {
                Some(_) => if h.power != top.power {
                    h.power
                } else if h.connector != top.connector {
                    h.connector
                } else {
                    h.pins > top.pins
                },
                None => true,
            };
            if better {
                best = Some(i);
                top = h;
            }
        }
        i += 1;
    }
    best
}

fn find_flags(parts: &Vec<PartInst>, v: &Vec<Plan>, flags: &Vec<String>, bi: usize) -> (r: Vec<
    String,
>)
    requires
        circuit::all_fit(parts@),
        circuit::members_ok(circuit::plans_v(v@), parts@.len() as int),
    ensures
        text::views(r@) == flags_here(
            parts@,
            circuit::plans_v(v@),
            text::views(flags@),
            bi as int,
        ),
{
    let ghost pv = circuit::plans_v(v@);
    let ghost fs = text::views(flags@);
    let mut here: Vec<String> = Vec::new();
    let mut i: usize = 0;
    assert(text::views(here@) =~= Seq::empty());
    while i < flags.len()
        invariant
            i <= flags@.len(),
            circuit::all_fit(parts@),
            circuit::members_ok(pv, parts@.len() as int),
            pv == circuit::plans_v(v@),
            pv.len() == v@.len(),
            fs == text::views(flags@),
            text::views(here@) == flags_at(parts@, pv, fs, bi as int, i as int),
        decreases flags@.len() - i,
    {
        assert(fs[i as int] == flags@[i as int]@);
        let ghost h0 = text::views(here@);
        match find_flag_home(parts, v, flags[i].as_str()) {
            Some(j) => {
                if j == bi {
                    here.push(flags[i].clone());
                    assert(text::views(here@) =~= h0.push(fs[i as int]));
                }
            },
            None => {},
        }
        i += 1;
    }
    assert(text::views(here@).len() == here@.len());
    name_set(&here)
}

// ---------------------------------------------------------------- nets of the whole circuit
/// A count of nets with one more of a net.
pub open spec fn one_more(m: Seq<(Seq<char>, u64)>, net: Seq<char>) -> Seq<(Seq<char>, u64)> {
    order_map::put(
        m,
        net,
        match order_map::look(m, net) {
            Some(c) => geom::lo(c + 1, u64::MAX as int) as u64,
            None => 1,
        },
    )
}

/// With the connected ones of the first `n` pins of a part.
pub open spec fn with_pins(m: Seq<(Seq<char>, u64)>, p: PartInst, n: int) -> Seq<(Seq<char>, u64)>
    decreases n,
{
    if n <= 0 {
        m
    } else {
        match layout::connected_net(p, n - 1) {
            Some(net) => one_more(with_pins(m, p, n - 1), net),
            None => with_pins(m, p, n - 1),
        }
    }
}

pub open spec fn with_members(
    m: Seq<(Seq<char>, u64)>,
    parts: Seq<PartInst>,
    v: Seq<usize>,
    n: int,
) -> Seq<(Seq<char>, u64)>
    decreases n,
{
    if n <= 0 {
        m
    } else {
        let p = parts[v[n - 1] as int];
        with_pins(with_members(m, parts, v, n - 1), p, p.pins@.len() as int)
    }
}

/// How many pins each net has in the first `n` blocks.
pub open spec fn net_counts(parts: Seq<PartInst>, v: Seq<PlanV>, n: int) -> Seq<(Seq<char>, u64)>
    decreases n,
{
    if n <= 0 {
        Seq::empty()
    } else {
        let m = v[n - 1].members;
        with_members(net_counts(parts, v, n - 1), parts, m, m.len() as int)
    }
}

pub open spec fn counts_v(v: Seq<(String, u64)>) -> Seq<(Seq<char>, u64)> {
    Seq::new(v.len(), |i: int| (v[i].0@, v[i].1))
}

fn count_one(m: &mut Vec<(String, u64)>, net: &str)
    ensures
        counts_v(final(m)@) == one_more(counts_v(old(m)@), net@),
{
    let ghost mv = counts_v(m@);
    let mut i: usize = 0;
    while i < m.len()
        invariant
            i <= m@.len(),
            m@ == old(m)@,
            mv == counts_v(m@),
            order_map::seek(mv, net@, 0) == order_map::seek(mv, net@, i as int),
        decreases m@.len() - i,
    {
        assert(mv[i as int] == (m@[i as int].0@, m@[i as int].1));
        if same(m[i].0.as_str(), net) {
            let c = m[i].1;
            let d: u64 = if c < u64::MAX { c + 1 } else { c };
            m.set(i, (net.to_owned(), d));
            assert(counts_v(m@) =~= mv.update(i as int, (net@, d)));
            return;
        }
        i += 1;
    }
    m.push((net.to_owned(), 1));
    assert(counts_v(m@) =~= mv.push((net@, 1u64)));
}

fn count_nets(parts: &Vec<PartInst>, v: &Vec<Plan>) -> (r: Vec<(String, u64)>)
    requires
        circuit::all_fit(parts@),
        circuit::members_ok(circuit::plans_v(v@), parts@.len() as int),
    ensures
        counts_v(r@) == net_counts(parts@, circuit::plans_v(v@), v@.len() as int),
{
    let ghost pv = circuit::plans_v(v@);
    let mut m: Vec<(String, u64)> = Vec::new();
    let mut i: usize = 0;
    assert(counts_v(m@) =~= Seq::empty());
    while i < v.len()
        invariant
            i <= v@.len(),
            circuit::all_fit(parts@),
            circuit::members_ok(pv, parts@.len() as int),
            pv == circuit::plans_v(v@),
            counts_v(m@) == net_counts(parts@, pv, i as int),
        decreases v@.len() - i,
    {
        assert(pv[i as int] == v@[i as int]@);
        let ms = &v[i].members;
        let ghost m0 = counts_v(m@);
        let mut j: usize = 0;
        while j < ms.len()
            invariant
                j <= ms@.len(),
                i < v@.len(),
                circuit::all_fit(parts@),
                circuit::members_ok(pv, parts@.len() as int),
                pv == circuit::plans_v(v@),
                ms@ == pv[i as int].members,
                counts_v(m@) == with_members(m0, parts@, ms@, j as int),
            decreases ms@.len() - j,
        {
            assert(pv[i as int].members[j as int] < parts@.len());
            let p = &parts[ms[j]];
            assert(circuit::part_fits(*p));
            let ghost m1 = counts_v(m@);
            let mut k: usize = 0;
            while k < p.pins.len()
                invariant
                    k <= p.pins@.len(),
                    circuit::part_fits(*p),
                    counts_v(m@) == with_pins(m1, *p, k as int),
                decreases p.pins@.len() - k,
            {
                match net_of_pin(p, k) {
                    Some(net) => count_one(&mut m, net.as_str()),
                    None => {},
                }
                k += 1;
            }
            j += 1;
        }
        i += 1;
    }
    m
}

// ---------------------------------------------------------------- one attempt at a block
/// What a block is set up from.
pub struct SetupV {
    pub specs: Seq<PartSpec>,
    pub members: Seq<usize>,
    pub power: Seq<Seq<char>>,
    pub flags: Seq<Seq<char>>,
    pub nets: Seq<(Seq<char>, u64)>,
    pub labels: Set<PinKey>,
}

/// Whether a frame is that of the parts of a block, none of them placed yet.
pub open spec fn set_up(c: SetupV, s: Session, index: SymbolIndex, ps: Seq<PartInst>, f: Frame) -> bool {
    &&& ps.len() == c.members.len()
    &&& forall|i: int|
        0 <= i < ps.len() ==> circuit::instance(
            c.specs[c.members[i] as int],
            s,
            index,
            #[trigger] ps[i],
        )
    &&& text::views(f.power@) == c.power
    &&& text::views(f.flags@) == c.flags
    &&& counts_v(f.all_nets@) == c.nets
    &&& group::keys_v(f.label_pins@) == c.labels
    &&& f.max_wire == BLOCK_WIRE
    &&& f.long_simple
    &&& order_map::list_pairs(f.nets) == layout::nets_of(ps, ps.len() as int)
    &&& order_map::list_pairs(f.signal_nets) == layout::kept_nets(
        order_map::list_pairs(f.nets),
        false,
        c.power,
        index,
        order_map::list_pairs(f.nets).len() as int,
    )
    &&& order_map::list_pairs(f.supply_nets) == layout::kept_nets(
        order_map::list_pairs(f.nets),
        true,
        c.power,
        index,
        order_map::list_pairs(f.nets).len() as int,
    )
    &&& f.pure_power_group == layout::all_power(ps, c.power, index)
    &&& f.parts@.len() == ps.len()
    &&& forall|i: int|
        0 <= i < ps.len() ==> layout::prepared_part(
            ps[i],
            #[trigger] f.parts@[i],
            layout::only_power(ps[i], c.power, index) && !f.pure_power_group,
            layout::reaches(
                ps[i],
                order_map::list_pairs(f.signal_nets),
                f.all_nets@,
                f.label_pins@,
                ps[i].pins@.len() as int,
            ),
        )
}

/// The last place below `n` of a key.
pub open spec fn last_place(v: Seq<measure::PlaceV>, key: Seq<char>, n: int) -> Option<
    measure::PlaceV,
>
    decreases n,
{
    if n <= 0 {
        None
    } else if v[n - 1].key == key {
        Some(v[n - 1])
    } else {
        last_place(v, key, n - 1)
    }
}

/// The first part from `i` on that the tree did not place.
pub open spec fn unplaced(f: Frame, v: Seq<measure::PlaceV>, i: int) -> int
    decreases f.parts@.len() - i,
{
    if i < 0 || i >= f.parts@.len() || last_place(v, f.parts@[i].key@, v.len() as int) is None {
        i
    } else {
        unplaced(f, v, i + 1)
    }
}

/// Whether a part stands where a place says.
pub open spec fn stands(before: PartInst, after: PartInst, p: measure::PlaceV) -> bool {
    &&& after == (PartInst { at: p.at, rot: p.rot, mirror: after.mirror, ..before })
    &&& after.mirror@ == p.mirror
}

/// Whether a frame is another one with its parts placed.
pub open spec fn put_up(f: Frame, g: Frame, v: Seq<measure::PlaceV>) -> bool {
    &&& g == (Frame { parts: g.parts, ..f })
    &&& g.parts@.len() == f.parts@.len()
    &&& forall|i: int|
        0 <= i < f.parts@.len() ==> stands(
            f.parts@[i],
            #[trigger] g.parts@[i],
            last_place(v, f.parts@[i].key@, v.len() as int)->0,
        )
}

/// The frames of an attempt: with its parts as listed, prepared, and placed.
pub struct TryW {
    pub ps: Seq<PartInst>,
    pub f: Frame,
    pub g: Frame,
}

/// What an attempt gives: the tree as it is left, what there is to say, the part that was not
/// placed, and what was drawn.
pub struct TryV {
    pub tree: TreeV,
    pub notes: Seq<Seq<char>>,
    pub missing: Option<Seq<char>>,
    pub drawn: DrawnV,
}

pub open spec fn block_path(title: Seq<char>) -> Seq<char> {
    "block '"@ + title + "'"@
}

#[verifier::opaque]
pub open spec fn try_of(w: TryW, title: Seq<char>, t: TreeV) -> TryV {
    let m = measure::measured(w.f, t, block_path(title), true, WRAPS as nat);
    let v = measure::placed(w.f, m.node, 0, 0);
    let i = unplaced(w.f, v, 0);
    TryV {
        tree: m.t,
        notes: m.notes,
        missing: if i < w.f.parts@.len() {
            Some(w.f.parts@[i].key@)
        } else {
            None
        },
        drawn: layout::route_spec(w.g, DrawnV::empty()).0,
    }
}

/// Whether frames are those of an attempt.
#[verifier::opaque]
pub open spec fn is_try(
    c: SetupV,
    s: Session,
    index: SymbolIndex,
    w: TryW,
    title: Seq<char>,
    t: TreeV,
) -> bool {
    let m = measure::measured(w.f, t, block_path(title), true, WRAPS as nat);
    let v = measure::placed(w.f, m.node, 0, 0);
    &&& set_up(c, s, index, w.ps, w.f)
    &&& unplaced(w.f, v, 0) >= w.f.parts@.len() && !any_fault(m.notes) ==> put_up(w.f, w.g, v)
}

/// Whether something said is more than a note.
pub open spec fn any_fault(v: Seq<Seq<char>>) -> bool {
    exists|i: int| 0 <= i < v.len() && !text::starts(#[trigger] v[i], "note:"@)
}

pub fn has_fault(v: &Vec<String>) -> (r: bool)
    ensures
        r == any_fault(text::views(v@)),
{
    let ghost s = text::views(v@);
    let mut i: usize = 0;
    while i < v.len()
        invariant
            i <= v@.len(),
            s == text::views(v@),
            forall|j: int| 0 <= j < i ==> text::starts(#[trigger] s[j], "note:"@),
        decreases v@.len() - i,
    {
        assert(s[i as int] == v@[i as int]@);
        if !starts_with(v[i].as_str(), "note:") {
            return true;
        }
        i += 1;
    }
    false
}

fn find_last_place<'a>(v: &'a Vec<Placement>, key: &str) -> (r: Option<&'a Placement>)
    ensures
        match r {
            Some(p) => last_place(measure::places_v(v@), key@, v@.len() as int) == Some(p@)
                && exists|i: int| 0 <= i < v@.len() && *p == #[trigger] v@[i],
            None => last_place(measure::places_v(v@), key@, v@.len() as int) is None,
        },
{
    let ghost pv = measure::places_v(v@);
    let mut n: usize = v.len();
    while n > 0
        invariant
            n <= v@.len(),
            pv == measure::places_v(v@),
            last_place(pv, key@, v@.len() as int) == last_place(pv, key@, n as int),
        decreases n,
    {
        assert(pv[n - 1] == v@[n - 1]@);
        if same(v[n - 1].key.as_str(), key) {
            return Some(&v[n - 1]);
        }
        n -= 1;
    }
    None
}

proof fn lemma_pin_total(ps: Seq<PartInst>, n: int)
    requires
        0 <= n <= ps.len(),
        circuit::all_fit(ps),
    ensures
        0 <= layout::pin_total(ps, n) <= 0x1000 * n,
    decreases n,
{
    if n > 0 {
        lemma_pin_total(ps, n - 1);
        assert(circuit::part_fits(ps[n - 1]));
    }
}

fn make_members(specs: &Vec<PartSpec>, members: &Vec<usize>, s: &Session, index: &SymbolIndex) -> (r:
    Vec<PartInst>)
    requires
        circuit::listings_fit(specs@, *s, *index),
        circuit::first_error(specs@, *s, *index, 0) is None,
        within(members@, specs@.len() as int),
    ensures
        r@.len() == members@.len(),
        circuit::all_fit(r@),
        forall|i: int|
            0 <= i < r@.len() ==> circuit::instance(
                specs@[members@[i] as int],
                *s,
                *index,
                #[trigger] r@[i],
            ),
{
    let mut r: Vec<PartInst> = Vec::new();
    let mut i: usize = 0;
    while i < members.len()
        invariant
            i <= members@.len(),
            circuit::listings_fit(specs@, *s, *index),
            circuit::first_error(specs@, *s, *index, 0) is None,
            within(members@, specs@.len() as int),
            r@.len() == i,
            circuit::all_fit(r@),
            forall|k: int|
                0 <= k < i ==> circuit::instance(
                    specs@[members@[k] as int],
                    *s,
                    *index,
                    #[trigger] r@[k],
                ),
        decreases members@.len() - i,
    {
        let j = members[i];
        proof {
            lemma_no_error(specs@, *s, *index, 0, j as int);
        }
        match make_instance(&specs[j], s, index) {
            Ok(p) => r.push(p),
            Err(_) => {
                assert(false);
            },
        }
        i += 1;
    }
    r
}

proof fn lemma_no_error(ps: Seq<PartSpec>, s: Session, index: SymbolIndex, i: int, j: int)
    requires
        0 <= i <= j < ps.len(),
        circuit::first_error(ps, s, index, i) is None,
    ensures
        engine::part_error(ps[j], s, index) is None,
    decreases j - i,
{
    if i < j {
        lemma_no_error(ps, s, index, i + 1, j);
    }
}

/// The most parts that a block can have.
pub const MOST_MEMBERS: usize = 0x1000;

fn dup_strings(v: &Vec<String>) -> (r: Vec<String>)
    ensures
        text::views(r@) == text::views(v@),
{
    let mut r: Vec<String> = Vec::new();
    let mut i: usize = 0;
    while i < v.len()
        invariant
            i <= v@.len(),
            r@.len() == i,
            forall|k: int| 0 <= k < i ==> (#[trigger] r@[k])@ == v@[k]@,
        decreases v@.len() - i,
    {
        r.push(v[i].clone());
        i += 1;
    }
    assert(text::views(r@) =~= text::views(v@));
    r
}

fn dup_counts(v: &Vec<(String, u64)>) -> (r: Vec<(String, u64)>)
    ensures
        counts_v(r@) == counts_v(v@),
{
    let mut r: Vec<(String, u64)> = Vec::new();
    let mut i: usize = 0;
    while i < v.len()
        invariant
            i <= v@.len(),
            r@.len() == i,
            forall|k: int| 0 <= k < i ==> (#[trigger] r@[k]).0@ == v@[k].0@ && r@[k].1 == v@[k].1,
        decreases v@.len() - i,
    {
        r.push((v[i].0.clone(), v[i].1));
        i += 1;
    }
    assert(counts_v(r@) =~= counts_v(v@));
    r
}

fn dup_keys(v: &Vec<(String, String)>) -> (r: Vec<(String, String)>)
    ensures
        group::keys_v(r@) == group::keys_v(v@),
        r@.len() == v@.len(),
{
    let mut r: Vec<(String, String)> = Vec::new();
    let mut i: usize = 0;
    while i < v.len()
        invariant
            i <= v@.len(),
            r@.len() == i,
            forall|k: int|
                0 <= k < i ==> (#[trigger] r@[k]).0@ == v@[k].0@ && r@[k].1@ == v@[k].1@,
        decreases v@.len() - i,
    {
        r.push((v[i].0.clone(), v[i].1.clone()));
        i += 1;
    }
    proof {
        assert forall|k: PinKey| group::keys_v(r@).contains(k) == group::keys_v(v@).contains(k) by {
            if group::keys_v(r@).contains(k) {
                let i = choose|i: int|
                    0 <= i < r@.len() && ((#[trigger] r@[i]).0@, r@[i].1@) == k;
                assert((v@[i].0@, v@[i].1@) == k);
            }
            if group::keys_v(v@).contains(k) {
                let i = choose|i: int|
                    0 <= i < v@.len() && ((#[trigger] v@[i]).0@, v@[i].1@) == k;
                assert((r@[i].0@, r@[i].1@) == k);
            }
        }
        assert(group::keys_v(r@) =~= group::keys_v(v@));
    }
    r
}

/// What a block is set up from, as it is handed around.
struct Setup<'a> {
    specs: &'a Vec<PartSpec>,
    members: &'a Vec<usize>,
    power: &'a Vec<String>,
    flags: &'a Vec<String>,
    nets: &'a Vec<(String, u64)>,
    labels: &'a Vec<(String, String)>,
}

impl<'a> Setup<'a> {
    spec fn view(&self) -> SetupV {
        SetupV {
            specs: self.specs@,
            members: self.members@,
            power: text::views(self.power@),
            flags: text::views(self.flags@),
            nets: counts_v(self.nets@),
            labels: group::keys_v(self.labels@),
        }
    }
}

fn set_up_block(c: &Setup, s: &Session, index: &SymbolIndex) -> (r: (GroupLayout, Ghost<
    Seq<PartInst>,
>))
    requires
        circuit::listings_fit(c.specs@, *s, *index),
        circuit::first_error(c.specs@, *s, *index, 0) is None,
        within(c.members@, c.specs@.len() as int),
        c.members@.len() <= MOST_MEMBERS,
    ensures
        r.0.wf(),
        r.0.drawn@ == DrawnV::empty(),
        set_up(c@, *s, *index, r.1@, r.0.frame),
        forall|i: int|
            0 <= i < r.0.frame.parts@.len() ==> drawing::drawable(#[trigger] r.0.frame.parts@[i]),
{
    let parts = make_members(c.specs, c.members, s, index);
    let ghost ps = parts@;
    proof {
        lemma_pin_total(ps, ps.len() as int);
        assert forall|i: int| 0 <= i < ps.len() implies (#[trigger] ps[i]).wf()
            && layout::net_names_ok(ps[i]) by {
            assert(circuit::part_fits(ps[i]));
        }
    }
    let mut gl = GroupLayout::new(
        parts,
        dup_strings(c.power),
        dup_strings(c.flags),
        dup_counts(c.nets),
        dup_keys(c.labels),
        index,
    );
    gl.frame.max_wire = BLOCK_WIRE;
    proof {
        assert forall|i: int| 0 <= i < gl.frame.parts@.len() implies drawing::drawable(
            #[trigger] gl.frame.parts@[i],
        ) by {
            assert(circuit::part_fits(ps[i]));
            assert(gl.frame.parts@[i].pinmap == ps[i].pinmap);
        }
    }
    (gl, Ghost(ps))
}

/// Puts the parts of a group where the places say; gives the key of the first without a place.
fn put_parts(gl: &mut GroupLayout, v: &Vec<Placement>) -> (r: Option<String>)
    requires
        old(gl).wf(),
        forall|i: int| 0 <= i < v@.len() ==> symlib::near_pt((#[trigger] v@[i]).at),
        forall|i: int|
            0 <= i < old(gl).frame.parts@.len() ==> drawing::drawable(
                #[trigger] old(gl).frame.parts@[i],
            ),
    ensures
        final(gl).wf(),
        final(gl).drawn@ == old(gl).drawn@,
        ({
            let pv = measure::places_v(v@);
            let i = unplaced(old(gl).frame, pv, 0);
            match r {
                Some(k) => i < old(gl).frame.parts@.len() && k@ == old(gl).frame.parts@[i].key@,
                None => i >= old(gl).frame.parts@.len() && put_up(
                    old(gl).frame,
                    final(gl).frame,
                    pv,
                ),
            }
        }),
        forall|i: int|
            0 <= i < final(gl).frame.parts@.len() ==> drawing::drawable(
                #[trigger] final(gl).frame.parts@[i],
            ),
{
    let ghost f0 = gl.frame;
    let ghost pv = measure::places_v(v@);
    let mut i: usize = 0;
    assert(pv.len() == v@.len());
    while i < gl.frame.parts.len()
        invariant
            i <= gl.frame.parts@.len(),
            gl.wf(),
            f0.wf(),
            gl.drawn == old(gl).drawn,
            f0 == old(gl).frame,
            gl.frame == (Frame { parts: gl.frame.parts, ..f0 }),
            gl.frame.parts@.len() == f0.parts@.len(),
            pv == measure::places_v(v@),
            pv.len() == v@.len(),
            forall|j: int| 0 <= j < v@.len() ==> symlib::near_pt((#[trigger] v@[j]).at),
            unplaced(f0, pv, 0) == unplaced(f0, pv, i as int),
            forall|j: int| i <= j < f0.parts@.len() ==> #[trigger] gl.frame.parts@[j] == f0.parts@[j],
            forall|j: int|
                0 <= j < i ==> stands(
                    f0.parts@[j],
                    #[trigger] gl.frame.parts@[j],
                    last_place(pv, f0.parts@[j].key@, pv.len() as int)->0,
                ),
            forall|j: int|
                0 <= j < gl.frame.parts@.len() ==> drawing::drawable(
                    #[trigger] gl.frame.parts@[j],
                ),
        decreases gl.frame.parts@.len() - i,
    {
        assert(gl.frame.parts@[i as int] == f0.parts@[i as int]);
        match find_last_place(v, gl.frame.parts[i].key.as_str()) {
            Some(p) => {
                let ghost before = gl.frame.parts@;
                gl.frame.parts[i].at = p.at;
                gl.frame.parts[i].rot = p.rot;
                gl.frame.parts[i].mirror = p.mirror.clone();
                proof {
                    let after = gl.frame.parts@;
                    assert(before[i as int].wf());
                    assert(drawing::drawable(before[i as int]));
                    assert(after[i as int].wf());
                    assert forall|j: int| 0 <= j < after.len() implies (#[trigger] after[j]).wf()
                        && drawing::drawable(after[j]) by {
                        if j != i {
                            assert(after[j] == before[j]);
                            assert(before[j].wf());
                            assert(drawing::drawable(before[j]));
                        }
                    }
                    assert forall|j: int| i + 1 <= j < f0.parts@.len() implies #[trigger] after[j]
                        == f0.parts@[j] by {
                        assert(after[j] == before[j]);
                    }
                    assert forall|j: int| 0 <= j < i implies #[trigger] after[j] == before[j] by {
                    }
                    lemma_same_nets(f0, gl.frame);
                }
            },
            None => return Some(gl.frame.parts[i].key.clone()),
        }
        i += 1;
    }
    None
}

proof fn lemma_same_nets(f: Frame, g: Frame)
    requires
        f.wf(),
        g == (Frame { parts: g.parts, ..f }),
        g.parts@.len() == f.parts@.len(),
        group::parts_ok(g.parts@),
        forall|i: int| 0 <= i < f.parts@.len() ==> (#[trigger] g.parts@[i]).pins == f.parts@[i].pins,
    ensures
        g.wf(),
{
    assert forall|v: Seq<(usize, usize)>| group::refs_ok(f.parts@, v) implies #[trigger] group::refs_ok(
        g.parts@,
        v,
    ) by {
        assert forall|i: int| 0 <= i < v.len() implies (#[trigger] v[i]).0 < g.parts@.len() && v[i].1
            < g.parts@[v[i].0 as int].pins@.len() by {
            assert(v[i].0 < f.parts@.len());
        }
    }
}

/// How an attempt ended.
enum Ending {
    /// Something is wrong with the tree.
    Faulty,
    /// A part has no place.
    Missing(String),
    /// The block is wired.
    Wired,
}

struct Attempt {
    tree: Tree,
    notes: Vec<String>,
    gl: GroupLayout,
    end: Ending,
}

spec fn attempt_ok(a: Attempt, v: TryV, g: Frame) -> bool {
    &&& a.tree@ == v.tree
    &&& text::views(a.notes@) == v.notes
    &&& match a.end {
        Ending::Faulty => any_fault(v.notes),
        Ending::Missing(k) => !any_fault(v.notes) && v.missing == Some(k@),
        Ending::Wired => !any_fault(v.notes) && v.missing is None && a.gl.wf() && a.gl.frame == g
            && a.gl.drawn@ == v.drawn && forall|i: int|
            0 <= i < g.parts@.len() ==> drawing::drawable(#[trigger] g.parts@[i]),
    }
}

fn attempt(c: &Setup, s: &Session, index: &SymbolIndex, title: &str, tree: &Tree) -> (r: (
    Attempt,
    Ghost<TryW>,
))
    requires
        circuit::listings_fit(c.specs@, *s, *index),
        circuit::first_error(c.specs@, *s, *index, 0) is None,
        within(c.members@, c.specs@.len() as int),
        c.members@.len() <= MOST_MEMBERS,
    ensures
        is_try(c@, *s, *index, r.1@, title@, tree@),
        attempt_ok(r.0, try_of(r.1@, title@, tree@), r.1@.g),
{
    proof {
        reveal(try_of);
        reveal(is_try);
    }
    let (gl, ps) = set_up_block(c, s, index);
    let mut gl = gl;
    let ghost f = gl.frame;
    let path = Line::of("block '").add(title).add("'").done();
    let m = measure(&gl.frame, tree, path.as_str(), true, WRAPS);
    if has_fault(&m.notes) {
        let ghost w = TryW { ps: ps@, f, g: f };
        let a = Attempt { tree: m.t, notes: m.notes, gl, end: Ending::Faulty };
        return (a, Ghost(w));
    }
    let places = place(&gl.frame, &m.node, 0, 0);
    match put_parts(&mut gl, &places) {
        Some(k) => {
            let ghost w = TryW { ps: ps@, f, g: f };
            let a = Attempt { tree: m.t, notes: m.notes, gl, end: Ending::Missing(k) };
            (a, Ghost(w))
        },
        None => {
            let ghost w = TryW { ps: ps@, f, g: gl.frame };
            let _labelled = gl.route();
            let a = Attempt { tree: m.t, notes: m.notes, gl, end: Ending::Wired };
            (a, Ghost(w))
        },
    }
}

// ---------------------------------------------------------------- one block
/// What has been drawn of a circuit: its blocks, what there is to say, the flags of the session,
/// and the complaints that stopped the drawing.
#[verifier::ext_equal]
pub struct SheetV {
    pub geos: Seq<(Seq<char>, GeoV)>,
    pub errors: Seq<Seq<char>>,
    pub flags: Seq<(Seq<char>, bool)>,
    pub stop: Option<Seq<Seq<char>>>,
}

/// The frames of the one or two attempts at a block.
pub struct BlockW {
    pub a: TryW,
    pub b: TryW,
}

pub open spec fn crowd_note(title: Seq<char>) -> Seq<char> {
    "block '"@ + title + "' has too many parts"@
}

pub open spec fn lost_note(title: Seq<char>, key: Seq<char>) -> Seq<char> {
    "block '"@ + title + "': "@ + key + " was not placed by its layout tree"@
}

pub open spec fn shape_note(title: Seq<char>, w: int, h: int) -> Seq<char> {
    "note: block '"@ + title + "' is "@ + measure::steps_text(w) + " x "@ + measure::steps_text(h)
        + " units - very "@ + (if h > w {
        "tall"@
    } else {
        "wide"@
    }) + "; rebalance its tree (put sub-circuits side by side in a row / stack them in a col)"@
}

/// Whether a block is badly proportioned.
pub open spec fn lopsided(w: int, h: int) -> bool {
    10 * h > 22 * w + 100 * GRID || w > 4 * h + 20 * GRID
}

/// A drawn block with its title over it and its note under it.
pub open spec fn captioned(g: GeoV, b: lint::BlockV) -> GeoV {
    let bb = geo::hull(g.boxes);
    let g1 = if b.title.len() > 0 {
        g.with_text(b.title, Pt { x: bb.x0, y: (bb.y0 - 381_000) as i64 }, 250_000, true)
    } else {
        g
    };
    let b2 = geo::hull(g1.boxes);
    match b.note {
        Some(n) => g1.with_text(n, Pt { x: bb.x0, y: (b2.y1 + 508_000) as i64 }, 127_000, false),
        None => g1,
    }
}

/// The sheet with one more wired block drawn.
#[verifier::opaque]
pub open spec fn finished(
    st: SheetV,
    b: lint::BlockV,
    g: Frame,
    d: DrawnV,
    s: Session,
    index: SymbolIndex,
) -> SheetV {
    let (ink, bad) = drawing::emit_spec(g, d, s, index);
    match bad {
        Some(e) => SheetV {
            flags: ink.flags,
            stop: Some(seq!["block '"@ + b.title + "': "@ + e]),
            ..st
        },
        None => {
            let bb = geo::hull(ink.g.boxes);
            let (w, h) = (bb.x1 - bb.x0, bb.y1 - bb.y0);
            SheetV {
                geos: st.geos.push((b.title, captioned(ink.g, b))),
                errors: if b.has_tree && lopsided(w, h) {
                    st.errors.push(shape_note(b.title, w, h))
                } else {
                    st.errors
                },
                flags: ink.flags,
                stop: None,
            }
        },
    }
}

/// Why an attempt stops the drawing.
pub open spec fn stops(st: SheetV, title: Seq<char>, t: TryV) -> Option<Seq<Seq<char>>> {
    if any_fault(t.notes) {
        Some(st.errors + t.notes)
    } else {
        match t.missing {
            Some(k) => Some(seq![lost_note(title, k)]),
            None => None,
        }
    }
}

pub open spec fn with_labels(c: SetupV, labels: Set<PinKey>) -> SetupV {
    SetupV { labels, ..c }
}

/// The sheet with one more block: wired, and wired again where pins were found to need labels, so
/// that these get their room.
pub open spec fn block_drawn(
    st: SheetV,
    c: SetupV,
    b: lint::BlockV,
    w: BlockW,
    s: Session,
    index: SymbolIndex,
) -> SheetV {
    if c.members.len() > MOST_MEMBERS {
        SheetV { stop: Some(seq![crowd_note(b.title)]), ..st }
    } else {
        let t1 = try_of(w.a, b.title, b.tree);
        let s1 = stops(st, b.title, t1);
        let st1 = SheetV { errors: st.errors + t1.notes, ..st };
        if s1 is Some {
            SheetV { stop: s1, ..st }
        } else if t1.drawn.labelled == Set::<PinKey>::empty() {
            finished(st1, b, w.a.g, t1.drawn, s, index)
        } else {
            let t2 = try_of(w.b, b.title, t1.tree);
            let s2 = stops(st1, b.title, t2);
            if s2 is Some {
                SheetV { stop: s2, ..st1 }
            } else {
                finished(
                    SheetV { errors: st1.errors + t2.notes, ..st1 },
                    b,
                    w.b.g,
                    t2.drawn,
                    s,
                    index,
                )
            }
        }
    }
}

/// Whether frames are those of the attempts at a block.
pub open spec fn is_block(
    c: SetupV,
    b: lint::BlockV,
    w: BlockW,
    s: Session,
    index: SymbolIndex,
) -> bool {
    let t1 = try_of(w.a, b.title, b.tree);
    c.members.len() <= MOST_MEMBERS ==> {
        &&& is_try(with_labels(c, Set::empty()), s, index, w.a, b.title, b.tree)
        &&& !any_fault(t1.notes) && t1.missing is None && t1.drawn.labelled
            != Set::<PinKey>::empty() ==> is_try(
            with_labels(c, t1.drawn.labelled),
            s,
            index,
            w.b,
            b.title,
            t1.tree,
        )
    }
}

/// The sheet as it is built up.
struct Sheet {
    geos: Vec<(String, Geo)>,
    errors: Vec<String>,
}

pub open spec fn geos_v(v: Seq<(String, Geo)>) -> Seq<(Seq<char>, GeoV)> {
    Seq::new(v.len(), |i: int| (v[i].0@, v[i].1@))
}

impl Sheet {
    spec fn shows(&self, v: SheetV) -> bool {
        geos_v(self.geos@) == v.geos && text::views(self.errors@) == v.errors
    }
}

proof fn lemma_hull_ok(bs: Seq<geom::BBox>)
    requires
        forall|i: int| 0 <= i < bs.len() ==> geom::box_ok(#[trigger] bs[i]),
    ensures
        geom::box_ok(geo::hull(bs)),
    decreases bs.len(),
{
    if bs.len() > 0 {
        assert(geom::box_ok(bs.last()));
        lemma_hull_ok(bs.drop_last());
    }
}

fn caption(g: &mut Geo, b: &lint::Block)
    requires
        pins::boxes_ok(old(g)@),
    ensures
        final(g)@ == captioned(old(g)@, b@),
{
    proof {
        lemma_hull_ok(g@.boxes);
    }
    let ghost g0 = g@;
    let bb = g.bbox();
    if !b.title.as_str().is_empty() {
        g.add_text(b.title.as_str(), Pt { x: bb.x0, y: bb.y0 - 381_000 }, 250_000, true);
        proof {
            let t = geo::text_box_spec(
                geo::text_shown(b.title@, 250_000, true),
                Pt { x: bb.x0, y: (bb.y0 - 381_000) as i64 },
                250_000,
            );
            assert(g@.boxes =~= g0.boxes.push(t));
            assert(g@.boxes.drop_last() =~= g0.boxes);
        }
    }
    match &b.note {
        Some(n) => {
            let b2 = g.bbox();
            g.add_text(n.as_str(), Pt { x: bb.x0, y: b2.y1 + 508_000 }, 127_000, false);
        },
        None => {},
    }
}

proof fn lemma_emit_session(f: Frame, d: DrawnV, a: Session, b: Session, index: SymbolIndex)
    requires
        a.extra == b.extra,
    ensures
        drawing::emit_spec(f, d, a, index) == drawing::emit_spec(f, d, b, index),
{
    drawing::lemma_same_symbols(f, a, b, index, d.geo, f.parts@.len() as int);
}

/// Draws a wired block; gives the complaint that stops the drawing.
fn finish_block(
    sh: &mut Sheet,
    b: &lint::Block,
    gl: GroupLayout,
    s: &mut Session,
    index: &SymbolIndex,
    Ghost(st): Ghost<SheetV>,
    Ghost(s0): Ghost<Session>,
) -> (r: Option<Vec<String>>)
    requires
        gl.wf(),
        geo::library_ok(*old(s), *index),
        old(s).extra == s0.extra,
        old(sh).shows(st),
        st.stop is None,
        forall|i: int|
            0 <= i < gl.frame.parts@.len() ==> drawing::drawable(#[trigger] gl.frame.parts@[i]),
    ensures
        final(s).wf(),
        final(s).extra == s0.extra,
        ({
            let v = finished(st, b@, gl.frame, gl.drawn@, s0, *index);
            &&& order_map::plain_pairs(final(s).flags) == v.flags
            &&& final(sh).shows(v)
            &&& match r {
                Some(e) => v.stop == Some(text::views(e@)),
                None => v.stop is None,
            }
        }),
{
    let mut gl = gl;
    let ghost f = gl.frame;
    let ghost d = gl.drawn@;
    proof {
        lemma_emit_session(f, d, *s, s0, *index);
        reveal(finished);
    }
    match gl.emit(s, index) {
        Err(e) => {
            let m = Line::of("block '").add(b.title.as_str()).add("': ").add(e.0.as_str()).done();
            let mut v: Vec<String> = Vec::new();
            let ghost mv = m@;
            v.push(m);
            assert(text::views(v@) =~= seq![mv]);
            Some(v)
        },
        Ok(g) => {
            let mut g = g;
            proof {
                lemma_hull_ok(g@.boxes);
            }
            let bb = g.bbox();
            let w: i64 = bb.x1 - bb.x0;
            let h: i64 = bb.y1 - bb.y0;
            if b.has_tree && (10 * h > 22 * w + 100 * GRID || w > 4 * h + 20 * GRID) {
                let shape = if h > w { "tall" } else { "wide" };
                let ws = steps_of(w);
                let hs = steps_of(h);
                let n = Line::of("note: block '").add(b.title.as_str()).add("' is ").add(
                    ws.as_str(),
                ).add(" x ").add(hs.as_str()).add(" units - very ").add(shape).add(
                    "; rebalance its tree (put sub-circuits side by side in a row / stack them in a col)",
                ).done();
                let ghost nv = n@;
                let ghost e0 = text::views(sh.errors@);
                sh.errors.push(n);
                assert(text::views(sh.errors@) =~= e0.push(nv));
                assert(nv == shape_note(b.title@, w as int, h as int));
            }
            caption(&mut g, b);
            let ghost g0 = geos_v(sh.geos@);
            let ghost gv = g@;
            sh.geos.push((b.title.clone(), g));
            assert(geos_v(sh.geos@) =~= g0.push((b.title@, gv)));
            None
        },
    }
}

fn steps_of(v: i64) -> (r: String)
    ensures
        r@ == measure::steps_text(v as int),
{
    measure::steps_line(v)
}

fn join_notes(a: &mut Vec<String>, b: Vec<String>)
    ensures
        text::views(final(a)@) == text::views(old(a)@) + text::views(b@),
{
    let ghost a0 = a@;
    let ghost b0 = b@;
    let mut b = b;
    a.append(&mut b);
    assert(a@ =~= a0 + b0);
    assert(text::views(a@) =~= text::views(a0) + text::views(b0));
}

proof fn lemma_no_keys(v: Seq<(String, String)>)
    ensures
        v.len() == 0 <==> group::keys_v(v) == Set::<PinKey>::empty(),
{
    if v.len() == 0 {
        assert(group::keys_v(v) =~= Set::empty());
    } else {
        assert(group::keys_v(v).contains((v[0].0@, v[0].1@)));
    }
}

proof fn lemma_instance_session(pj: PartSpec, a: Session, b: Session, index: SymbolIndex)
    requires
        a.extra == b.extra,
    ensures
        engine::part_error(pj, a, index) == engine::part_error(pj, b, index),
        forall|q: PartInst|
            circuit::plain_instance(pj, a, index, q) == #[trigger] circuit::plain_instance(
                pj,
                b,
                index,
                q,
            ),
        forall|p: PartInst|
            circuit::instance(pj, a, index, p) == #[trigger] circuit::instance(pj, b, index, p),
{
    assert forall|k: Seq<char>| geo::info_spec(a, index, k) == #[trigger] geo::info_spec(
        b,
        index,
        k,
    ) by {
    }
    if pj.lib is Some {
        assert(geo::info_spec(a, index, pj.lib->0@) == geo::info_spec(b, index, pj.lib->0@));
    }
    assert(engine::part_error(pj, a, index) == engine::part_error(pj, b, index));
    assert forall|q: PartInst| circuit::plain_instance(pj, a, index, q)
        == #[trigger] circuit::plain_instance(pj, b, index, q) by {
    }
    assert forall|p: PartInst| circuit::instance(pj, a, index, p) == #[trigger] circuit::instance(
        pj,
        b,
        index,
        p,
    ) by {
        if circuit::instance(pj, a, index, p) {
            let q = choose|q: PartInst| #[trigger]
                circuit::plain_instance(pj, a, index, q) && p == (PartInst { key: p.key, ..q })
                    && p.key@ == circuit::full_key(q.id@, q.unit as int);
            assert(circuit::plain_instance(pj, b, index, q));
        }
        if circuit::instance(pj, b, index, p) {
            let q = choose|q: PartInst| #[trigger]
                circuit::plain_instance(pj, b, index, q) && p == (PartInst { key: p.key, ..q })
                    && p.key@ == circuit::full_key(q.id@, q.unit as int);
            assert(circuit::plain_instance(pj, a, index, q));
        }
    }
}

proof fn lemma_error_session(ps: Seq<PartSpec>, a: Session, b: Session, index: SymbolIndex, i: int)
    requires
        a.extra == b.extra,
    ensures
        circuit::first_error(ps, a, index, i) == circuit::first_error(ps, b, index, i),
    decreases ps.len() - i,
{
    if 0 <= i < ps.len() {
        lemma_instance_session(ps[i], a, b, index);
        lemma_error_session(ps, a, b, index, i + 1);
    }
}

proof fn lemma_fit_session(ps: Seq<PartSpec>, a: Session, b: Session, index: SymbolIndex)
    requires
        circuit::listings_fit(ps, a, index),
        a.extra == b.extra,
        b.wf(),
    ensures
        circuit::listings_fit(ps, b, index),
        circuit::first_error(ps, a, index, 0) == circuit::first_error(ps, b, index, 0),
{
    lemma_error_session(ps, a, b, index, 0);
    assert forall|i: int| 0 <= i < ps.len() implies circuit::listing_fits(
        #[trigger] ps[i],
        b,
        index,
    ) by {
        assert(circuit::listing_fits(ps[i], a, index));
        lemma_instance_session(ps[i], a, b, index);
        assert forall|k: Seq<char>|
            (#[trigger] geo::info_spec(b, index, k)) is Some implies engine::short_texts(
            engine::pin_names(
                engine::visible(geo::info_spec(b, index, k)->0.unit_spec(ps[i].unit as int).pins@),
            ),
        ) by {
            assert(geo::info_spec(a, index, k) == geo::info_spec(b, index, k));
        }
        assert forall|q: PartInst| #[trigger] circuit::plain_instance(ps[i], b, index, q)
            && q.info.wf() implies circuit::part_fits(q) by {
            assert(circuit::plain_instance(ps[i], a, index, q));
        }
    }
}

proof fn lemma_try_session(
    c: SetupV,
    a: Session,
    b: Session,
    index: SymbolIndex,
    w: TryW,
    title: Seq<char>,
    t: TreeV,
)
    requires
        a.extra == b.extra,
        is_try(c, a, index, w, title, t),
    ensures
        is_try(c, b, index, w, title, t),
{
    reveal(is_try);
    assert forall|i: int| 0 <= i < w.ps.len() implies circuit::instance(
        c.specs[c.members[i] as int],
        b,
        index,
        #[trigger] w.ps[i],
    ) by {
        lemma_instance_session(c.specs[c.members[i] as int], a, b, index);
    }
}

fn lost(title: &str, key: &str) -> (r: Vec<String>)
    ensures
        text::views(r@) == seq![lost_note(title@, key@)],
{
    let m = Line::of("block '").add(title).add("': ").add(key).add(
        " was not placed by its layout tree",
    ).done();
    let mut v: Vec<String> = Vec::new();
    let ghost mv = m@;
    v.push(m);
    assert(text::views(v@) =~= seq![mv]);
    v
}

/// Draws one block; gives the complaints that stop the drawing.
#[verifier::spinoff_prover]
fn draw_block(
    sh: &mut Sheet,
    c: &Setup,
    b: &lint::Block,
    s: &mut Session,
    index: &SymbolIndex,
    Ghost(st): Ghost<SheetV>,
    Ghost(s0): Ghost<Session>,
) -> (r: (Option<Vec<String>>, Ghost<BlockW>))
    requires
        circuit::listings_fit(c.specs@, s0, *index),
        circuit::first_error(c.specs@, s0, *index, 0) is None,
        within(c.members@, c.specs@.len() as int),
        c.labels@.len() == 0,
        old(s).wf(),
        old(s).extra == s0.extra,
        old(sh).shows(st),
        st.stop is None,
        order_map::plain_pairs(old(s).flags) == st.flags,
    ensures
        final(s).wf(),
        final(s).extra == s0.extra,
        is_block(c@, b@, r.1@, s0, *index),
        ({
            let v = block_drawn(st, c@, b@, r.1@, s0, *index);
            &&& order_map::plain_pairs(final(s).flags) == v.flags
            &&& match r.0 {
                Some(e) => v.stop == Some(text::views(e@)),
                None => v.stop is None && final(sh).shows(v),
            }
        }),
{
    let ghost cv = c@;
    proof {
        lemma_no_keys(c.labels@);
        assert(with_labels(cv, Set::empty()) == cv);
    }
    if c.members.len() > MOST_MEMBERS {
        let m = Line::of("block '").add(b.title.as_str()).add("' has too many parts").done();
        let mut v: Vec<String> = Vec::new();
        let ghost mv = m@;
        v.push(m);
        assert(text::views(v@) =~= seq![mv]);
        let ghost w: BlockW = arbitrary();
        return (Some(v), Ghost(w));
    }
    proof {
        lemma_fit_session(c.specs@, s0, *s, *index);
    }
    let (a1, w1) = attempt(c, s, index, b.title.as_str(), &b.tree);
    proof {
        lemma_try_session(cv, *s, s0, *index, w1@, b.title@, b.tree@);
    }
    let ghost t1 = try_of(w1@, b.title@, b.tree@);
    match a1.end {
        Ending::Faulty => {
            let mut e = dup_strings(&sh.errors);
            join_notes(&mut e, a1.notes);
            return (Some(e), Ghost(BlockW { a: w1@, b: w1@ }));
        },
        Ending::Missing(k) => {
            return (Some(lost(b.title.as_str(), k.as_str())), Ghost(BlockW { a: w1@, b: w1@ }));
        },
        Ending::Wired => {},
    }
    join_notes(&mut sh.errors, a1.notes);
    let ghost st1 = SheetV { errors: st.errors + t1.notes, ..st };
    proof {
        lemma_no_keys(a1.gl.drawn.labelled_pins@);
    }
    if a1.gl.drawn.labelled_pins.len() == 0 {
        let r = finish_block(sh, b, a1.gl, s, index, Ghost(st1), Ghost(s0));
        return (r, Ghost(BlockW { a: w1@, b: w1@ }));
    }
    let labels = dup_keys(&a1.gl.drawn.labelled_pins);
    let c2 = Setup {
        specs: c.specs,
        members: c.members,
        power: c.power,
        flags: c.flags,
        nets: c.nets,
        labels: &labels,
    };
    assert(c2@ == with_labels(cv, t1.drawn.labelled));
    let (a2, w2) = attempt(&c2, s, index, b.title.as_str(), &a1.tree);
    proof {
        lemma_try_session(c2@, *s, s0, *index, w2@, b.title@, t1.tree);
    }
    let ghost t2 = try_of(w2@, b.title@, t1.tree);
    let ghost w = BlockW { a: w1@, b: w2@ };
    match a2.end {
        Ending::Faulty => {
            let mut e = dup_strings(&sh.errors);
            join_notes(&mut e, a2.notes);
            return (Some(e), Ghost(w));
        },
        Ending::Missing(k) => {
            return (Some(lost(b.title.as_str(), k.as_str())), Ghost(w));
        },
        Ending::Wired => {},
    }
    join_notes(&mut sh.errors, a2.notes);
    let ghost st2 = SheetV { errors: st1.errors + t2.notes, ..st1 };
    let r = finish_block(sh, b, a2.gl, s, index, Ghost(st2), Ghost(s0));
    (r, Ghost(w))
}

// ---------------------------------------------------------------- the circuit
/// What block `i` of a circuit is set up from.
pub open spec fn setup_of(
    specs: Seq<PartSpec>,
    parts: Seq<PartInst>,
    plans: Seq<PlanV>,
    power: Seq<Seq<char>>,
    flags: Seq<Seq<char>>,
    i: int,
) -> SetupV {
    SetupV {
        specs,
        members: plans[i].members,
        power,
        flags: flags_here(parts, plans, flags, i),
        nets: net_counts(parts, plans, plans.len() as int),
        labels: Set::empty(),
    }
}

/// The frames of a circuit: its parts, and those of its blocks.
pub struct CircuitW {
    pub parts: Seq<PartInst>,
    pub blocks: Seq<BlockW>,
}

/// The sheet after the first `n` blocks, nothing more after a complaint.
pub open spec fn blocks_drawn(
    specs: Seq<PartSpec>,
    w: CircuitW,
    plans: Seq<PlanV>,
    power: Seq<Seq<char>>,
    flags: Seq<Seq<char>>,
    st: SheetV,
    s: Session,
    index: SymbolIndex,
    n: int,
) -> SheetV
    decreases n,
{
    if n <= 0 {
        st
    } else {
        let b = blocks_drawn(specs, w, plans, power, flags, st, s, index, n - 1);
        if b.stop is Some {
            b
        } else {
            block_drawn(
                b,
                setup_of(specs, w.parts, plans, power, flags, n - 1),
                plans[n - 1].block,
                w.blocks[n - 1],
                s,
                index,
            )
        }
    }
}

/// The height of a note under the others.
pub open spec fn note_step(n: Seq<char>) -> int {
    let lines = (text::pieces(n, '\n').len() + n.len() / 60) as int;
    190_500 * lines + 254_000
}

/// Where the note after the first `n` begins.
pub open spec fn note_at(v: Seq<Seq<char>>, n: int) -> i64
    decreases n,
{
    if n <= 0 {
        254_000
    } else {
        orient::cut(note_at(v, n - 1) + note_step(v[n - 1]))
    }
}

/// The first `n` notes under their heading.
pub open spec fn notes_drawn(v: Seq<Seq<char>>, n: int) -> GeoV
    decreases n,
{
    if n <= 0 {
        GeoV::empty().with_text("NOTES"@, Pt { x: 0, y: (-381_000) as i64 }, 250_000, true)
    } else {
        notes_drawn(v, n - 1).with_text(
            v[n - 1],
            Pt { x: 0, y: note_at(v, n - 1) },
            127_000,
            false,
        )
    }
}

/// What a circuit comes to.
#[verifier::ext_equal]
pub struct ResultV {
    pub geos: Seq<(Seq<char>, GeoV)>,
    pub errors: Seq<Seq<char>>,
    pub flags: Seq<(Seq<char>, bool)>,
}

pub open spec fn plan_of(c: Circuit, w: CircuitW, index: SymbolIndex) -> circuit::PlannedV {
    let z = circuit::strip_v(c, index);
    circuit::planned(w.parts, text::views(c.power@), index, z.layout, z.notes)
}

/// Whether frames are those of a circuit.
pub open spec fn is_circuit(c: Circuit, s: Session, index: SymbolIndex, w: CircuitW) -> bool {
    let z = circuit::strip_v(c, index);
    let p = plan_of(c, w, index);
    let power = text::views(c.power@);
    circuit::first_error(z.parts, s, index, 0) is None && z.parts.len() > 0 ==> {
        &&& circuit::instances(z.parts, s, index, w.parts)
        &&& w.blocks.len() == p.plans.len()
        &&& !any_fault(p.errors) ==> forall|i: int|
            0 <= i < p.plans.len() && blocks_drawn(
                z.parts,
                w,
                p.plans,
                power,
                z.flags,
                sheet_start(p.errors, s),
                s,
                index,
                i,
            ).stop is None ==> is_block(
                setup_of(z.parts, w.parts, p.plans, power, z.flags, i),
                p.plans[i].block,
                #[trigger] w.blocks[i],
                s,
                index,
            )
    }
}

pub open spec fn sheet_start(errors: Seq<Seq<char>>, s: Session) -> SheetV {
    SheetV {
        geos: Seq::empty(),
        errors,
        flags: order_map::plain_pairs(s.flags),
        stop: None,
    }
}

/// The blocks of a circuit drawn from its frames, or the complaints about it.
pub open spec fn circuit_drawn(c: Circuit, s: Session, index: SymbolIndex, w: CircuitW) -> ResultV {
    let z = circuit::strip_v(c, index);
    let flags = order_map::plain_pairs(s.flags);
    let nothing = ResultV { geos: Seq::empty(), errors: Seq::empty(), flags };
    match circuit::first_error(z.parts, s, index, 0) {
        Some(e) => ResultV { errors: seq![e], ..nothing },
        None => if z.parts.len() == 0 {
            ResultV { errors: seq!["no parts"@], ..nothing }
        } else {
            let p = plan_of(c, w, index);
            if any_fault(p.errors) {
                ResultV { errors: p.errors, ..nothing }
            } else {
                let r = blocks_drawn(
                    z.parts,
                    w,
                    p.plans,
                    text::views(c.power@),
                    z.flags,
                    sheet_start(p.errors, s),
                    s,
                    index,
                    p.plans.len() as int,
                );
                let notes = text::views(c.notes@);
                match r.stop {
                    Some(e) => ResultV { geos: Seq::empty(), errors: e, flags: r.flags },
                    None => ResultV {
                        geos: if notes.len() > 0 {
                            r.geos.push(("notes"@, notes_drawn(notes, notes.len() as int)))
                        } else {
                            r.geos
                        },
                        errors: r.errors,
                        flags: r.flags,
                    },
                }
            }
        },
    }
}

/// Whether a result is that of a circuit.
pub open spec fn comes_to(c: Circuit, s: Session, index: SymbolIndex, w: CircuitW, r: ResultV) -> bool {
    is_circuit(c, s, index, w) && r == circuit_drawn(c, s, index, w)
}

fn draw_notes(v: &Vec<String>) -> (g: Geo)
    ensures
        g@ == notes_drawn(text::views(v@), v@.len() as int),
{
    let ghost ns = text::views(v@);
    let mut g = Geo::new();
    g.add_text("NOTES", Pt { x: 0, y: -381_000 }, 250_000, true);
    let mut y: i64 = 254_000;
    let mut i: usize = 0;
    while i < v.len()
        invariant
            i <= v@.len(),
            ns == text::views(v@),
            orient::fits(y as int),
            y == note_at(ns, i as int),
            g@ == notes_drawn(ns, i as int),
        decreases v@.len() - i,
    {
        assert(ns[i as int] == v@[i as int]@);
        g.add_text(v[i].as_str(), Pt { x: 0, y }, 127_000, false);
        let ls = text::split(v[i].as_str(), '\n');
        assert(text::views(ls@).len() == ls@.len());
        let n: u128 = v[i].as_str().unicode_len() as u128;
        let lines: u128 = ls.len() as u128 + n / 60;
        let step: i128 = 190_500 * (lines as i128) + 254_000;
        y = crate::flex::cut_wide(y as i128 + step);
        i += 1;
    }
    g
}

proof fn lemma_stripped_from(ps: Seq<PartSpec>, flags: Seq<Seq<char>>, l: Seq<lint::BlockV>, index: SymbolIndex, s: Session, n: int)
    requires
        0 <= n <= ps.len(),
        circuit::listings_fit(ps, s, index),
    ensures
        circuit::listings_fit(circuit::stripped(ps, flags, l, index, n).parts, s, index),
        circuit::stripped(ps, flags, l, index, n).parts.len() <= n,
    decreases n,
{
    if n > 0 {
        lemma_stripped_from(ps, flags, l, index, s, n - 1);
        assert(circuit::listing_fits(ps[n - 1], s, index));
    }
}

/// One complaint.
fn only(e: String) -> (r: Vec<String>)
    ensures
        text::views(r@) == seq![e@],
{
    let ghost ev = e@;
    let mut v: Vec<String> = Vec::new();
    v.push(e);
    assert(text::views(v@) =~= seq![ev]);
    v
}

/// The state of a circuit being drawn.
struct Job<'a> {
    specs: &'a Vec<PartSpec>,
    parts: &'a Vec<PartInst>,
    plans: &'a Vec<Plan>,
    power: &'a Vec<String>,
    flags: &'a Vec<String>,
}

impl<'a> Job<'a> {
    spec fn drawn(&self, ws: Seq<BlockW>, st: SheetV, s: Session, index: SymbolIndex, n: int) -> SheetV {
        blocks_drawn(
            self.specs@,
            CircuitW { parts: self.parts@, blocks: ws },
            circuit::plans_v(self.plans@),
            text::views(self.power@),
            text::views(self.flags@),
            st,
            s,
            index,
            n,
        )
    }

    spec fn setup(&self, i: int) -> SetupV {
        setup_of(
            self.specs@,
            self.parts@,
            circuit::plans_v(self.plans@),
            text::views(self.power@),
            text::views(self.flags@),
            i,
        )
    }

    spec fn block_ok(&self, ws: Seq<BlockW>, s: Session, index: SymbolIndex, i: int) -> bool {
        is_block(self.setup(i), circuit::plans_v(self.plans@)[i].block, ws[i], s, index)
    }
}

proof fn lemma_same_frames(
    specs: Seq<PartSpec>,
    a: CircuitW,
    b: CircuitW,
    plans: Seq<PlanV>,
    power: Seq<Seq<char>>,
    flags: Seq<Seq<char>>,
    st: SheetV,
    s: Session,
    index: SymbolIndex,
    n: int,
)
    requires
        a.parts == b.parts,
        n <= a.blocks.len(),
        n <= b.blocks.len(),
        forall|i: int| 0 <= i < n ==> #[trigger] a.blocks[i] == b.blocks[i],
    ensures
        blocks_drawn(specs, a, plans, power, flags, st, s, index, n) == blocks_drawn(
            specs,
            b,
            plans,
            power,
            flags,
            st,
            s,
            index,
            n,
        ),
    decreases n,
{
    if n > 0 {
        lemma_same_frames(specs, a, b, plans, power, flags, st, s, index, n - 1);
        assert(a.blocks[n - 1] == b.blocks[n - 1]);
    }
}

proof fn lemma_stays_stopped(
    specs: Seq<PartSpec>,
    w: CircuitW,
    plans: Seq<PlanV>,
    power: Seq<Seq<char>>,
    flags: Seq<Seq<char>>,
    st: SheetV,
    s: Session,
    index: SymbolIndex,
    k: int,
    n: int,
)
    requires
        0 <= k <= n,
        blocks_drawn(specs, w, plans, power, flags, st, s, index, k).stop is Some,
    ensures
        blocks_drawn(specs, w, plans, power, flags, st, s, index, n) == blocks_drawn(
            specs,
            w,
            plans,
            power,
            flags,
            st,
            s,
            index,
            k,
        ),
    decreases n,
{
    if k < n {
        lemma_stays_stopped(specs, w, plans, power, flags, st, s, index, k, n - 1);
    }
}

/// How drawing the blocks ended: the complaints that stopped it, if any, and the frames.
struct Outcome {
    stop: Option<Vec<String>>,
    frames: Ghost<Seq<BlockW>>,
}

#[verifier::spinoff_prover]
fn draw_blocks(
    j: &Job,
    sh: &mut Sheet,
    s: &mut Session,
    index: &SymbolIndex,
    Ghost(st): Ghost<SheetV>,
) -> (r: Outcome)
    requires
        circuit::listings_fit(j.specs@, *old(s), *index),
        circuit::first_error(j.specs@, *old(s), *index, 0) is None,
        j.parts@.len() == j.specs@.len(),
        circuit::all_fit(j.parts@),
        circuit::members_ok(circuit::plans_v(j.plans@), j.parts@.len() as int),
        old(sh).shows(st),
        st.stop is None,
        order_map::plain_pairs(old(s).flags) == st.flags,
    ensures
        final(s).wf(),
        final(s).extra == old(s).extra,
        r.frames@.len() == j.plans@.len(),
        ({
            let n = j.plans@.len() as int;
            let v = j.drawn(r.frames@, st, *old(s), *index, n);
            &&& order_map::plain_pairs(final(s).flags) == v.flags
            &&& match r.stop {
                Some(e) => v.stop == Some(text::views(e@)),
                None => v.stop is None && final(sh).shows(v),
            }
        }),
        forall|i: int|
            0 <= i < j.plans@.len() && j.drawn(r.frames@, st, *old(s), *index, i).stop is None
                ==> #[trigger] j.block_ok(r.frames@, *old(s), *index, i),
{
    let ghost s0 = *s;
    let ghost pv = circuit::plans_v(j.plans@);
    let nets = count_nets(j.parts, j.plans);
    let no_labels: Vec<(String, String)> = Vec::new();
    proof {
        lemma_no_keys(no_labels@);
    }
    let ghost mut ws: Seq<BlockW> = Seq::empty();
    let mut i: usize = 0;
    while i < j.plans.len()
        invariant
            i <= j.plans@.len(),
            pv == circuit::plans_v(j.plans@),
            pv.len() == j.plans@.len(),
            s0 == *old(s),
            circuit::listings_fit(j.specs@, s0, *index),
            circuit::first_error(j.specs@, s0, *index, 0) is None,
            j.parts@.len() == j.specs@.len(),
            circuit::all_fit(j.parts@),
            circuit::members_ok(pv, j.parts@.len() as int),
            counts_v(nets@) == net_counts(j.parts@, pv, pv.len() as int),
            no_labels@.len() == 0,
            group::keys_v(no_labels@) == Set::<PinKey>::empty(),
            s.wf(),
            s.extra == s0.extra,
            ws.len() == i,
            sh.shows(j.drawn(ws, st, s0, *index, i as int)),
            j.drawn(ws, st, s0, *index, i as int).stop is None,
            order_map::plain_pairs(s.flags) == j.drawn(ws, st, s0, *index, i as int).flags,
            forall|k: int| 0 <= k < i ==> #[trigger] j.block_ok(ws, s0, *index, k),
        decreases j.plans@.len() - i,
    {
        let p = &j.plans[i];
        assert(pv[i as int] == p@);
        assert(within(p.members@, j.specs@.len() as int)) by {
            assert forall|k: int| 0 <= k < p.members@.len() implies #[trigger] p.members@[k]
                < j.specs@.len() by {
                assert(pv[i as int].members[k] < j.parts@.len());
            }
        }
        let here = find_flags(j.parts, j.plans, j.flags, i);
        let c = Setup {
            specs: j.specs,
            members: &p.members,
            power: j.power,
            flags: &here,
            nets: &nets,
            labels: &no_labels,
        };
        assert(c@ == j.setup(i as int));
        let ghost v = j.drawn(ws, st, s0, *index, i as int);
        let (stop, w) = draw_block(sh, &c, &p.block, s, index, Ghost(v), Ghost(s0));
        let ghost ws0 = ws;
        proof {
            ws = ws.push(w@);
            lemma_same_frames(
                j.specs@,
                CircuitW { parts: j.parts@, blocks: ws0 },
                CircuitW { parts: j.parts@, blocks: ws },
                pv,
                text::views(j.power@),
                text::views(j.flags@),
                st,
                s0,
                *index,
                i as int,
            );
            assert forall|k: int| 0 <= k < i + 1 implies #[trigger] j.block_ok(
                ws,
                s0,
                *index,
                k,
            ) by {
                if k < i {
                    assert(j.block_ok(ws0, s0, *index, k));
                    assert(ws[k] == ws0[k]);
                }
            }
        }
        match stop {
            Some(e) => {
                let ghost all = ws + Seq::new(
                    (pv.len() - ws.len()) as nat,
                    |k: int| arbitrary::<BlockW>(),
                );
                proof {
                    lemma_stopped_early(*j, ws, all, st, s0, *index, i + 1);
                }
                return Outcome { stop: Some(e), frames: Ghost(all) };
            },
            None => {},
        }
        i += 1;
    }
    Outcome { stop: None, frames: Ghost(ws) }
}

proof fn lemma_stopped_early(
    j: Job,
    ws: Seq<BlockW>,
    all: Seq<BlockW>,
    st: SheetV,
    s: Session,
    index: SymbolIndex,
    k: int,
)
    requires
        0 < k == ws.len(),
        k <= all.len() == j.plans@.len(),
        forall|i: int| 0 <= i < k ==> #[trigger] all[i] == ws[i],
        j.drawn(ws, st, s, index, k).stop is Some,
        forall|i: int| 0 <= i < k ==> #[trigger] j.block_ok(ws, s, index, i),
    ensures
        j.drawn(all, st, s, index, j.plans@.len() as int) == j.drawn(ws, st, s, index, k),
        forall|i: int|
            0 <= i < j.plans@.len() && j.drawn(all, st, s, index, i).stop is None
                ==> #[trigger] j.block_ok(all, s, index, i),
{
    let a = CircuitW { parts: j.parts@, blocks: ws };
    let b = CircuitW { parts: j.parts@, blocks: all };
    let (ps, pv) = (j.specs@, circuit::plans_v(j.plans@));
    let (pw, fl) = (text::views(j.power@), text::views(j.flags@));
    lemma_same_frames(ps, a, b, pv, pw, fl, st, s, index, k);
    lemma_stays_stopped(ps, b, pv, pw, fl, st, s, index, k, pv.len() as int);
    assert forall|i: int|
        0 <= i < j.plans@.len() && j.drawn(all, st, s, index, i).stop is None implies #[trigger] j.block_ok(
        all,
        s,
        index,
        i,
    ) by {
        if i >= k {
            lemma_stays_stopped(ps, b, pv, pw, fl, st, s, index, k, i);
        } else {
            assert(j.block_ok(ws, s, index, i));
            assert(all[i] == ws[i]);
        }
    }
}

/// Lays out a circuit: its blocks with their titles, each in its own coordinates, and what there is
/// to say. A complaint that is no note leaves no blocks.
#[verifier::spinoff_prover]
pub fn circuit_geos(c: Circuit, s: &mut Session, index: &SymbolIndex) -> (r: (
    Vec<(String, Geo)>,
    Vec<String>,
))
    requires
        circuit::listings_fit(c.parts@, *old(s), *index),
    ensures
        final(s).wf(),
        final(s).extra == old(s).extra,
        exists|w: CircuitW| #[trigger]
            comes_to(
                c,
                *old(s),
                *index,
                w,
                ResultV {
                    geos: geos_v(r.0@),
                    errors: text::views(r.1@),
                    flags: order_map::plain_pairs(final(s).flags),
                },
            ),
{
    let ghost c0 = c;
    let ghost s0 = *s;
    let ghost z = circuit::strip_v(c, *index);
    proof {
        lemma_stripped_from(
            c.parts@,
            text::views(c.flags@),
            lint::blocks_v(c.layout@),
            *index,
            s0,
            c.parts@.len() as int,
        );
    }
    let mut c = c;
    let said = strip_power_parts(&mut c, index);
    let ghost power = text::views(c0.power@);
    assert(text::views(c.power@) == power);
    let none: Vec<(String, Geo)> = Vec::new();
    assert(geos_v(none@) =~= Seq::empty());
    let ghost flags0 = order_map::plain_pairs(s.flags);
    if c.parts.len() == 0 {
        let r = only("no parts".to_owned());
        let ghost w: CircuitW = arbitrary();
        let ghost v = ResultV { geos: geos_v(none@), errors: text::views(r@), flags: flags0 };
        assert(circuit::first_error(z.parts, s0, *index, 0) is None);
        assert(comes_to(c0, s0, *index, w, v));
        return (none, r);
    }
    let parts = match make_instances(&c.parts, s, index) {
        Ok(p) => p,
        Err(e) => {
            let r = only(e.0);
            let ghost w: CircuitW = arbitrary();
            let ghost v = ResultV { geos: geos_v(none@), errors: text::views(r@), flags: flags0 };
            assert(comes_to(c0, s0, *index, w, v));
            return (none, r);
        },
    };
    proof {
        assert forall|i: int| 0 <= i < parts@.len() implies (#[trigger] parts@[i]).wf() by {
            assert(circuit::part_fits(parts@[i]));
        }
    }
    let (plans, errors) = plan(&parts, &c.power, index, &c.layout, said);
    let ghost pv = circuit::plans_v(plans@);
    let ghost p = circuit::planned(parts@, power, *index, z.layout, z.notes);
    assert(pv == p.plans);
    assert(text::views(errors@) == p.errors);
    if has_fault(&errors) {
        let ghost w = CircuitW {
            parts: parts@,
            blocks: Seq::new(pv.len(), |i: int| arbitrary::<BlockW>()),
        };
        let ghost v = ResultV { geos: geos_v(none@), errors: text::views(errors@), flags: flags0 };
        assert(plan_of(c0, w, *index) == p);
        assert(comes_to(c0, s0, *index, w, v));
        return (none, errors);
    }
    let mut sh = Sheet { geos: none, errors };
    let j = Job {
        specs: &c.parts,
        parts: &parts,
        plans: &plans,
        power: &c.power,
        flags: &c.flags,
    };
    let ghost st = sheet_start(p.errors, s0);
    let out = draw_blocks(&j, &mut sh, s, index, Ghost(st));
    let ghost w = CircuitW { parts: parts@, blocks: out.frames@ };
    proof {
        assert(plan_of(c0, w, *index) == p);
        assert(pv.len() == plans@.len());
        assert forall|i: int|
            0 <= i < p.plans.len() && blocks_drawn(
                z.parts,
                w,
                p.plans,
                power,
                z.flags,
                st,
                s0,
                *index,
                i,
            ).stop is None implies is_block(
            setup_of(z.parts, w.parts, p.plans, power, z.flags, i),
            p.plans[i].block,
            #[trigger] w.blocks[i],
            s0,
            *index,
        ) by {
            assert(j.drawn(out.frames@, st, s0, *index, i).stop is None);
            assert(j.block_ok(out.frames@, s0, *index, i));
        }
        assert(is_circuit(c0, s0, *index, w));
    }
    match out.stop {
        Some(e) => {
            let none: Vec<(String, Geo)> = Vec::new();
            assert(geos_v(none@) =~= Seq::empty());
            let ghost v = ResultV {
                geos: geos_v(none@),
                errors: text::views(e@),
                flags: order_map::plain_pairs(s.flags),
            };
            assert(comes_to(c0, s0, *index, w, v));
            return (none, e);
        },
        None => {},
    }
    let mut geos = sh.geos;
    assert(text::views(c.notes@).len() == c.notes@.len());
    if c.notes.len() > 0 {
        let g = draw_notes(&c.notes);
        let ghost g0 = geos_v(geos@);
        let ghost gv = g@;
        geos.push(("notes".to_owned(), g));
        assert(geos_v(geos@) =~= g0.push(("notes"@, gv)));
    }
    let ghost v = ResultV {
        geos: geos_v(geos@),
        errors: text::views(sh.errors@),
        flags: order_map::plain_pairs(s.flags),
    };
    assert(comes_to(c0, s0, *index, w, v));
    (geos, sh.errors)
}

} // verus!
