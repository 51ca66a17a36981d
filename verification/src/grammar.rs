//! Layout grammar: how components take part in a layout, and what meets on each net.
use crate::kernel;
use crate::kernel::{list_pins, Block, Component, Design, PinTarget, Provider};
use crate::names;
use crate::names::has_name;
use crate::natural;
use crate::natural::natural_before;
use crate::order_map;
use crate::reconcile;
use crate::reconcile::find_named;
use crate::text;
use crate::text::{ascii_upper, contains, same, starts_with, Line};
use vstd::prelude::*;

verus! {

/// Whether a rail hangs down: its name holds GND or starts with VSS, in any case.
pub open spec fn hangs_down(net: Seq<char>) -> bool {
    let n = text::ascii_uppercase(net);
    text::has(n, "GND"@) || text::starts(n, "VSS"@)
}

pub fn is_ground(net: &str) -> (r: bool)
    ensures
        r == hangs_down(net@),
{
    let n = ascii_upper(net);
    contains(n.as_str(), "GND") || starts_with(n.as_str(), "VSS")
}

/// How a component takes part in a layout.
#[derive(Debug, Clone, Copy, PartialEq, Eq, Structural)]
pub enum Role {
    /// Placed on its own.
    Anchor,
    /// Two pins, both on nets: an element of a chain.
    ChainElement,
}

/// The number of pins of a component: that of its symbol, or of its own list where the symbol is
/// not known.
pub open spec fn pin_count(c: Component, p: Provider) -> int {
    match p.found(c.part@) {
        Some(m) => m.pins@.len() as int,
        None => kernel::all_pins(c).len() as int,
    }
}

pub open spec fn role_spec(c: Component, p: Provider) -> Role {
    if pin_count(c, p) == 2 && c.units@.len() == 0 && c.pins@.len() == 2 && c.pins@[0].1 is Net
        && c.pins@[1].1 is Net {
        Role::ChainElement
    } else {
        Role::Anchor
    }
}

/// The role of a component.
pub fn role_of(c: &Component, p: &Provider) -> (r: Role)
    ensures
        r == role_spec(*c, *p),
{
    let n: usize = match p.symbol(c.part.as_str()) {
        Some(m) => m.pins.len(),
        None => {
            let v = list_pins(c);
            assert(kernel::wanted_v(v@).len() == v@.len());
            v.len()
        },
    };
    if n == 2 && c.units.len() == 0 && c.pins.len() == 2 && matches!(c.pins[0].1, PinTarget::Net(_))
        && matches!(c.pins[1].1, PinTarget::Net(_)) {
        Role::ChainElement
    } else {
        Role::Anchor
    }
}

// ---------------------------------------------------------------- what meets on a net
/// What meets on a net within one block.
#[derive(Debug, Clone, PartialEq)]
pub struct NetUse {
    /// Pins of chain elements, with their components, in natural order.
    pub chain_pins: Vec<(String, String)>,
    /// Pins of anchors, with their components, in natural order.
    pub anchor_pins: Vec<(String, String)>,
    /// Another block uses the net too.
    pub external: bool,
    /// The net is a power net.
    pub power: bool,
}

pub type PinRefs = Seq<(Seq<char>, Seq<char>)>;

#[verifier::ext_equal]
pub struct UseV {
    pub chain: PinRefs,
    pub anchor: PinRefs,
    pub external: bool,
    pub power: bool,
}

pub open spec fn pairs(v: Seq<(String, String)>) -> PinRefs {
    Seq::new(v.len(), |i: int| (v[i].0@, v[i].1@))
}

impl NetUse {
    pub open spec fn view(&self) -> UseV {
        UseV {
            chain: pairs(self.chain_pins@),
            anchor: pairs(self.anchor_pins@),
            external: self.external,
            power: self.power,
        }
    }
}

pub type UsesV = Seq<(Seq<char>, UseV)>;

pub open spec fn uses_v(v: Seq<(String, NetUse)>) -> UsesV {
    Seq::new(v.len(), |i: int| (v[i].0@, v[i].1@))
}

pub open spec fn no_use() -> UseV {
    UseV { chain: Seq::empty(), anchor: Seq::empty(), external: false, power: false }
}

pub open spec fn use_or_none(u: Option<UseV>) -> UseV {
    match u {
        Some(x) => x,
        None => no_use(),
    }
}

pub open spec fn is_power(nets: Seq<(String, bool)>, net: Seq<char>) -> bool {
    order_map::look(reconcile::named(nets), net) == Some(true)
}

/// The uses with one pin more.
pub open spec fn with_use(
    u: UsesV,
    role: Role,
    refdes: Seq<char>,
    pin: Seq<char>,
    net: Seq<char>,
    power: bool,
) -> UsesV {
    let x = use_or_none(order_map::look(u, net));
    let y = if role == Role::ChainElement {
        UseV { chain: x.chain.push((refdes, pin)), power: x.power || power, ..x }
    } else {
        UseV { anchor: x.anchor.push((refdes, pin)), power: x.power || power, ..x }
    };
    order_map::put(u, net, y)
}

pub open spec fn pins_used(
    u: UsesV,
    role: Role,
    refdes: Seq<char>,
    pins: Seq<kernel::PinV>,
    nets: Seq<(String, bool)>,
    n: int,
) -> UsesV
    decreases n,
{
    if n <= 0 {
        u
    } else {
        let x = pins_used(u, role, refdes, pins, nets, n - 1);
        match pins[n - 1].1 {
            Some(net) => with_use(x, role, refdes, pins[n - 1].0, net, is_power(nets, net)),
            None => x,
        }
    }
}

pub open spec fn parts_used(
    b: Block,
    p: Provider,
    nets: Seq<(String, bool)>,
    n: int,
) -> UsesV
    decreases n,
{
    if n <= 0 {
        Seq::empty()
    } else {
        let c = b.components@[n - 1];
        let pins = kernel::all_pins(c.1);
        pins_used(
            parts_used(b, p, nets, n - 1),
            role_spec(c.1, p),
            c.0@,
            pins,
            nets,
            pins.len() as int,
        )
    }
}

/// The uses with a net marked as used elsewhere.
pub open spec fn outside(u: UsesV, net: Seq<char>) -> UsesV {
    match order_map::look(u, net) {
        Some(x) => order_map::put(u, net, UseV { external: true, ..x }),
        None => u,
    }
}

pub open spec fn pins_outside(u: UsesV, pins: Seq<kernel::PinV>, n: int) -> UsesV
    decreases n,
{
    if n <= 0 {
        u
    } else {
        let x = pins_outside(u, pins, n - 1);
        match pins[n - 1].1 {
            Some(net) => outside(x, net),
            None => x,
        }
    }
}

pub open spec fn parts_outside(u: UsesV, b: Block, n: int) -> UsesV
    decreases n,
{
    if n <= 0 {
        u
    } else {
        let pins = kernel::all_pins(b.components@[n - 1].1);
        pins_outside(parts_outside(u, b, n - 1), pins, pins.len() as int)
    }
}

pub open spec fn blocks_outside(
    u: UsesV,
    own: Seq<char>,
    blocks: Seq<(String, Block)>,
    n: int,
) -> UsesV
    decreases n,
{
    if n <= 0 {
        u
    } else {
        let x = blocks_outside(u, own, blocks, n - 1);
        if blocks[n - 1].0@ == own {
            x
        } else {
            parts_outside(x, blocks[n - 1].1, blocks[n - 1].1.components@.len() as int)
        }
    }
}

/// What a pin is ordered by.
pub open spec fn pin_order(p: (Seq<char>, Seq<char>)) -> Seq<char> {
    p.0 + "\0"@ + p.1
}

pub open spec fn pin_orders(v: PinRefs) -> Seq<Seq<char>> {
    Seq::new(v.len(), |i: int| pin_order(v[i]))
}

/// The first `n` pins in natural order.
pub open spec fn in_order(v: PinRefs, n: int) -> PinRefs
    decreases n,
{
    if n <= 0 {
        Seq::empty()
    } else {
        let s = in_order(v, n - 1);
        s.insert(natural::nat_place(pin_orders(s), pin_order(v[n - 1]), 0), v[n - 1])
    }
}

pub open spec fn use_in_order(u: UseV) -> UseV {
    UseV {
        chain: in_order(u.chain, u.chain.len() as int),
        anchor: in_order(u.anchor, u.anchor.len() as int),
        ..u
    }
}

pub open spec fn keys_of(v: UsesV) -> Seq<Seq<char>> {
    Seq::new(v.len(), |i: int| v[i].0)
}

/// The first `n` uses in the natural order of their nets, their pins in natural order.
pub open spec fn uses_in_order(v: UsesV, n: int) -> UsesV
    decreases n,
{
    if n <= 0 {
        Seq::empty()
    } else {
        let s = uses_in_order(v, n - 1);
        s.insert(
            natural::nat_place(keys_of(s), v[n - 1].0, 0),
            (v[n - 1].0, use_in_order(v[n - 1].1)),
        )
    }
}

/// What meets on each net of a block.
pub open spec fn uses_of(d: Design, name: Seq<char>, b: Block, p: Provider) -> UsesV {
    let own = parts_used(b, p, d.nets@, b.components@.len() as int);
    let all = blocks_outside(own, name, d.blocks@, d.blocks@.len() as int);
    uses_in_order(all, all.len() as int)
}

fn seek_use(v: &Vec<(String, NetUse)>, k: &str) -> (r: usize)
    ensures
        r <= v@.len(),
        r == order_map::seek(uses_v(v@), k@, 0),
{
    let ghost m = uses_v(v@);
    let mut i: usize = 0;
    while i < v.len()
        invariant
            i <= v@.len(),
            m == uses_v(v@),
            order_map::seek(m, k@, 0) == order_map::seek(m, k@, i as int),
        decreases v@.len() - i,
    {
        assert(m[i as int].0 == v@[i as int].0@);
        if same(v[i].0.as_str(), k) {
            return i;
        }
        i += 1;
    }
    i
}

fn use_pin(
    v: &mut Vec<(String, NetUse)>,
    role: Role,
    refdes: &str,
    pin: &str,
    net: &str,
    power: bool,
)
    ensures
        uses_v(final(v)@) == with_use(uses_v(old(v)@), role, refdes@, pin@, net@, power),
{
    let ghost m = uses_v(v@);
    let i = seek_use(v, net);
    let found = i < v.len();
    let mut u = NetUse {
        chain_pins: Vec::new(),
        anchor_pins: Vec::new(),
        external: false,
        power: false,
    };
    assert(u@ =~= no_use());
    if found {
        assert(m[i as int] == (v@[i as int].0@, v@[i as int].1@));
        u = v.remove(i).1;
    }
    let ghost u0 = u@;
    assert(u0 == use_or_none(order_map::look(m, net@)));
    u.power = u.power || power;
    match role {
        Role::ChainElement => {
            u.chain_pins.push((refdes.to_owned(), pin.to_owned()));
            assert(u@.chain =~= u0.chain.push((refdes@, pin@)));
        },
        Role::Anchor => {
            u.anchor_pins.push((refdes.to_owned(), pin.to_owned()));
            assert(u@.anchor =~= u0.anchor.push((refdes@, pin@)));
        },
    }
    let ghost uv = u@;
    if found {
        v.insert(i, (net.to_owned(), u));
        assert(uses_v(v@) =~= m.update(i as int, (net@, uv)));
    } else {
        v.push((net.to_owned(), u));
        assert(uses_v(v@) =~= m.push((net@, uv)));
    }
}

fn mark_outside(v: &mut Vec<(String, NetUse)>, net: &str)
    ensures
        uses_v(final(v)@) == outside(uses_v(old(v)@), net@),
{
    let ghost m = uses_v(v@);
    let i = seek_use(v, net);
    if i < v.len() {
        assert(m[i as int] == (v@[i as int].0@, v@[i as int].1@));
        let mut u = v.remove(i).1;
        let ghost u0 = u@;
        u.external = true;
        assert(u@ =~= UseV { external: true, ..u0 });
        let ghost uv = u@;
        v.insert(i, (net.to_owned(), u));
        assert(uses_v(v@) =~= m.update(i as int, (net@, uv)));
    }
}

fn use_part(
    v: &mut Vec<(String, NetUse)>,
    refdes: &str,
    c: &Component,
    p: &Provider,
    nets: &Vec<(String, bool)>,
)
    ensures
        uses_v(final(v)@) == pins_used(
            uses_v(old(v)@),
            role_spec(*c, *p),
            refdes@,
            kernel::all_pins(*c),
            nets@,
            kernel::all_pins(*c).len() as int,
        ),
{
    let ghost m = uses_v(v@);
    let role = role_of(c, p);
    let pins = list_pins(c);
    let ghost pv = kernel::wanted_v(pins@);
    let mut i: usize = 0;
    while i < pins.len()
        invariant
            i <= pins@.len(),
            pv == kernel::wanted_v(pins@),
            uses_v(v@) == pins_used(m, role, refdes@, pv, nets@, i as int),
        decreases pins@.len() - i,
    {
        assert(pv[i as int].0 == pins@[i as int].pin@);
        if let Some(net) = &pins[i].net {
            let power = match find_named(nets, net.as_str()) {
                Some(b) => *b,
                None => false,
            };
            use_pin(v, role, refdes, pins[i].pin.as_str(), net.as_str(), power);
        }
        i += 1;
    }
}

fn mark_part(v: &mut Vec<(String, NetUse)>, c: &Component)
    ensures
        uses_v(final(v)@) == pins_outside(
            uses_v(old(v)@),
            kernel::all_pins(*c),
            kernel::all_pins(*c).len() as int,
        ),
{
    let ghost m = uses_v(v@);
    let pins = list_pins(c);
    let ghost pv = kernel::wanted_v(pins@);
    let mut i: usize = 0;
    while i < pins.len()
        invariant
            i <= pins@.len(),
            pv == kernel::wanted_v(pins@),
            uses_v(v@) == pins_outside(m, pv, i as int),
        decreases pins@.len() - i,
    {
        assert(pv[i as int].0 == pins@[i as int].pin@);
        if let Some(net) = &pins[i].net {
            mark_outside(v, net.as_str());
        }
        i += 1;
    }
}

fn sort_pins(v: &Vec<(String, String)>) -> (r: Vec<(String, String)>)
    ensures
        pairs(r@) == in_order(pairs(v@), v@.len() as int),
{
    let ghost pv = pairs(v@);
    let mut r: Vec<(String, String)> = Vec::new();
    let mut i: usize = 0;
    assert(pairs(r@) =~= in_order(pv, 0));
    while i < v.len()
        invariant
            i <= v@.len(),
            pv == pairs(v@),
            pairs(r@) == in_order(pv, i as int),
        decreases v@.len() - i,
    {
        let ghost s = pairs(r@);
        let ghost ks = pin_orders(s);
        let own = Line::of(v[i].0.as_str()).add("\0").add(v[i].1.as_str()).done();
        let mut k: usize = 0;
        let mut here = false;
        while k < r.len() && !here
            invariant
                k <= r@.len(),
                s == pairs(r@),
                ks == pin_orders(s),
                natural::nat_place(ks, own@, 0) == natural::nat_place(ks, own@, k as int),
                here ==> k < r@.len() && natural::natural(own@, ks[k as int]),
            decreases r@.len() - k, !here as int,
        {
            let other = Line::of(r[k].0.as_str()).add("\0").add(r[k].1.as_str()).done();
            assert(ks[k as int] == other@);
            if natural_before(own.as_str(), other.as_str()) {
                here = true;
            } else {
                k += 1;
            }
        }
        r.insert(k, (v[i].0.clone(), v[i].1.clone()));
        assert(pv[i as int] == (v@[i as int].0@, v@[i as int].1@));
        assert(pairs(r@) =~= s.insert(k as int, pv[i as int]));
        i += 1;
    }
    r
}

fn insert_use(r: &mut Vec<(String, NetUse)>, net: String, u: NetUse)
    ensures
        uses_v(final(r)@) == uses_v(old(r)@).insert(
            natural::nat_place(keys_of(uses_v(old(r)@)), net@, 0),
            (net@, u@),
        ),
{
    let ghost s = uses_v(r@);
    let ghost ks = keys_of(s);
    let ghost (nv, uv) = (net@, u@);
    let mut k: usize = 0;
    while k < r.len() && !natural_before(net.as_str(), r[k].0.as_str())
        invariant
            k <= r@.len(),
            s == uses_v(r@),
            ks == keys_of(s),
            natural::nat_place(ks, net@, 0) == natural::nat_place(ks, net@, k as int),
        decreases r@.len() - k,
    {
        assert(ks[k as int] == r@[k as int].0@);
        k += 1;
    }
    if k < r.len() {
        assert(ks[k as int] == r@[k as int].0@);
    }
    r.insert(k, (net, u));
    assert(uses_v(r@) =~= s.insert(k as int, (nv, uv)));
}

/// What meets on each net of a block: the pins of chain elements and of anchors, in natural order,
/// whether another block uses the net, and whether it is a power net.
pub fn net_uses(d: &Design, name: &str, b: &Block, p: &Provider) -> (r: Vec<(String, NetUse)>)
    ensures
        uses_v(r@) == uses_of(*d, name@, *b, *p),
{
    let mut v: Vec<(String, NetUse)> = Vec::new();
    let mut i: usize = 0;
    assert(uses_v(v@) =~= Seq::empty());
    while i < b.components.len()
        invariant
            i <= b.components@.len(),
            uses_v(v@) == parts_used(*b, *p, d.nets@, i as int),
        decreases b.components@.len() - i,
    {
        let c = &b.components[i];
        use_part(&mut v, c.0.as_str(), &c.1, p, &d.nets);
        i += 1;
    }
    let ghost own = uses_v(v@);
    i = 0;
    while i < d.blocks.len()
        invariant
            i <= d.blocks@.len(),
            uses_v(v@) == blocks_outside(own, name@, d.blocks@, i as int),
        decreases d.blocks@.len() - i,
    {
        let o = &d.blocks[i];
        if !same(o.0.as_str(), name) {
            let ghost before = uses_v(v@);
            let mut k: usize = 0;
            while k < o.1.components.len()
                invariant
                    k <= o.1.components@.len(),
                    uses_v(v@) == parts_outside(before, o.1, k as int),
                decreases o.1.components@.len() - k,
            {
                mark_part(&mut v, &o.1.components[k].1);
                k += 1;
            }
        }
        i += 1;
    }
    let ghost all = uses_v(v@);
    let mut r: Vec<(String, NetUse)> = Vec::new();
    i = 0;
    assert(uses_v(r@) =~= Seq::empty());
    while i < v.len()
        invariant
            i <= v@.len(),
            all == uses_v(v@),
            uses_v(r@) == uses_in_order(all, i as int),
        decreases v@.len() - i,
    {
        assert(all[i as int] == (v@[i as int].0@, v@[i as int].1@));
        let u = NetUse {
            chain_pins: sort_pins(&v[i].1.chain_pins),
            anchor_pins: sort_pins(&v[i].1.anchor_pins),
            external: v[i].1.external,
            power: v[i].1.power,
        };
        assert(u@ =~= use_in_order(all[i as int].1));
        insert_use(&mut r, v[i].0.clone(), u);
        i += 1;
    }
    assert(all.len() == v@.len());
    r
}

// ---------------------------------------------------------------- which nets carry a label
/// Whether a net of a block carries a label: it leaves the block, an anchor taps it, more than two
/// chain pins meet on it, or it ends at a single chain pin; a power net never does.
pub open spec fn carries_label(net: Seq<char>, u: UseV, power: Seq<Seq<char>>) -> bool {
    !power.contains(net) && (u.external || u.anchor.len() > 0 || u.chain.len() > 2 || u.chain.len()
        == 1)
}

pub open spec fn labelled(v: UsesV, power: Seq<Seq<char>>, n: int) -> Seq<Seq<char>>
    decreases n,
{
    if n <= 0 {
        Seq::empty()
    } else if carries_label(v[n - 1].0, v[n - 1].1, power) {
        names::set_add(labelled(v, power, n - 1), v[n - 1].0)
    } else {
        labelled(v, power, n - 1)
    }
}

/// The nets of a block that carry a label, in ascending order.
pub fn labeled_nets(v: &Vec<(String, NetUse)>, power: &Vec<String>) -> (r: Vec<String>)
    ensures
        text::views(r@) == labelled(uses_v(v@), text::views(power@), v@.len() as int),
{
    let ghost uv = uses_v(v@);
    let mut r: Vec<String> = Vec::new();
    let mut i: usize = 0;
    assert(text::views(r@) =~= Seq::empty());
    while i < v.len()
        invariant
            i <= v@.len(),
            uv == uses_v(v@),
            text::views(r@) == labelled(uv, text::views(power@), i as int),
        decreases v@.len() - i,
    {
        assert(uv[i as int] == (v@[i as int].0@, v@[i as int].1@));
        let u = &v[i].1;
        assert(u@.chain.len() == u.chain_pins@.len() && u@.anchor.len() == u.anchor_pins@.len());
        if !has_name(power, v[i].0.as_str()) && (u.external || u.anchor_pins.len() > 0
            || u.chain_pins.len() > 2 || u.chain_pins.len() == 1) {
            names::add_distinct(&mut r, v[i].0.clone());
        }
        i += 1;
    }
    r
}

/// A net that two chain pins share inside one block needs no label.
pub proof fn inner_joints_carry_no_label(net: Seq<char>, u: UseV, power: Seq<Seq<char>>)
    requires
        u.chain.len() == 2,
        u.anchor.len() == 0,
        !u.external,
    ensures
        !carries_label(net, u, power),
{
}

} // verus!
