//! Chains: elements that follow one another from net to net.
use crate::grammar;
use crate::grammar::{NetUse, UsesV};
use crate::kernel::{Block, Component, Link, PinTarget};
use crate::names;
use crate::names::{add_distinct, has_name};
use crate::natural;
use crate::natural::natural_before;
use crate::order_map;
use crate::reconcile;
use crate::reconcile::find_named;
use crate::text;
use crate::text::{same, Line};
use vstd::prelude::*;

verus! {

#[verifier::ext_equal]
pub struct LinkV {
    pub refdes: Seq<char>,
    pub a_pin: Seq<char>,
    pub a_net: Seq<char>,
    pub b_pin: Seq<char>,
    pub b_net: Seq<char>,
}

impl Link {
    pub open spec fn view(&self) -> LinkV {
        LinkV {
            refdes: self.refdes@,
            a_pin: self.a_pin@,
            a_net: self.a_net@,
            b_pin: self.b_pin@,
            b_net: self.b_net@,
        }
    }

    /// A link of a component that is entered from a net, if the component has two pins on nets.
    pub fn of(b: &Block, refdes: &str, from: &str) -> (r: Option<Link>)
        ensures
            opt_link(r) == link_of(*b, refdes@, from@),
    {
        let c = match find_named(&b.components, refdes) {
            Some(c) => c,
            None => return None,
        };
        let i = net_pin_at(c, 0);
        if i >= c.pins.len() {
            return None;
        }
        let j = net_pin_at(c, i + 1);
        if j >= c.pins.len() {
            return None;
        }
        match (&c.pins[i].1, &c.pins[j].1) {
            (PinTarget::Net(m), PinTarget::Net(n)) => if same(m.as_str(), from) {
                Some(
                    Link {
                        refdes: refdes.to_owned(),
                        a_pin: c.pins[i].0.clone(),
                        a_net: m.clone(),
                        b_pin: c.pins[j].0.clone(),
                        b_net: n.clone(),
                    },
                )
            } else {
                Some(
                    Link {
                        refdes: refdes.to_owned(),
                        a_pin: c.pins[j].0.clone(),
                        a_net: n.clone(),
                        b_pin: c.pins[i].0.clone(),
                        b_net: m.clone(),
                    },
                )
            },
            _ => None,
        }
    }

    /// The link the other way round.
    pub fn reversed(&self) -> (r: Link)
        ensures
            r@ == back(self@),
    {
        Link {
            refdes: self.refdes.clone(),
            a_pin: self.b_pin.clone(),
            a_net: self.b_net.clone(),
            b_pin: self.a_pin.clone(),
            b_net: self.a_net.clone(),
        }
    }
}

pub open spec fn back(l: LinkV) -> LinkV {
    LinkV { refdes: l.refdes, a_pin: l.b_pin, a_net: l.b_net, b_pin: l.a_pin, b_net: l.a_net }
}

/// A link turned round twice is the link.
pub proof fn turning_twice_is_nothing(l: LinkV)
    ensures
        back(back(l)) == l,
{
}

pub open spec fn opt_link(l: Option<Link>) -> Option<LinkV> {
    match l {
        Some(x) => Some(x@),
        None => None,
    }
}

/// The first pin from `i` on that is on a net, or the number of pins.
pub open spec fn net_pin(v: Seq<(String, PinTarget)>, i: int) -> int
    decreases v.len() - i,
{
    if i < 0 || i >= v.len() || v[i].1 is Net {
        i
    } else {
        net_pin(v, i + 1)
    }
}

fn net_pin_at(c: &Component, from: usize) -> (r: usize)
    requires
        from <= c.pins@.len(),
    ensures
        r == net_pin(c.pins@, from as int),
        from <= r <= c.pins@.len(),
        r < c.pins@.len() ==> c.pins@[r as int].1 is Net,
{
    let mut i = from;
    while i < c.pins.len()
        invariant
            from <= i <= c.pins@.len(),
            net_pin(c.pins@, from as int) == net_pin(c.pins@, i as int),
        decreases c.pins@.len() - i,
    {
        match &c.pins[i].1 {
            PinTarget::Net(_) => return i,
            PinTarget::NoConnect => {},
        }
        i += 1;
    }
    i
}

/// The link of a component that is entered from a net.
pub open spec fn link_of(b: Block, refdes: Seq<char>, from: Seq<char>) -> Option<LinkV> {
    match order_map::look(reconcile::named(b.components@), refdes) {
        None => None,
        Some(c) => {
            let i = net_pin(c.pins@, 0);
            let j = net_pin(c.pins@, i + 1);
            if i >= c.pins@.len() || j >= c.pins@.len() {
                None
            } else {
                let (p, m) = (c.pins@[i].0@, c.pins@[i].1->Net_0@);
                let (q, n) = (c.pins@[j].0@, c.pins@[j].1->Net_0@);
                if m == from {
                    Some(LinkV { refdes, a_pin: p, a_net: m, b_pin: q, b_net: n })
                } else {
                    Some(LinkV { refdes, a_pin: q, a_net: n, b_pin: p, b_net: m })
                }
            }
        },
    }
}

/// Whether a chain goes on through a net: two chain pins meet on it, it is no power net, and no
/// other block uses it. Anchors may tap it.
pub open spec fn goes_through(u: UsesV, net: Seq<char>) -> bool {
    match order_map::look(u, net) {
        Some(x) => !x.power && !x.external && x.chain.len() == 2,
        None => false,
    }
}

pub fn through(v: &Vec<(String, NetUse)>, net: &str) -> (r: bool)
    ensures
        r == goes_through(grammar::uses_v(v@), net@),
{
    let i = seek(v, net);
    if i < v.len() {
        assert(grammar::uses_v(v@)[i as int] == (v@[i as int].0@, v@[i as int].1@));
        let u = &v[i].1;
        assert(u@.chain.len() == u.chain_pins@.len());
        !u.power && !u.external && u.chain_pins.len() == 2
    } else {
        false
    }
}

fn seek(v: &Vec<(String, NetUse)>, k: &str) -> (r: usize)
    ensures
        r <= v@.len(),
        r == order_map::seek(grammar::uses_v(v@), k@, 0),
{
    let ghost m = grammar::uses_v(v@);
    let mut i: usize = 0;
    while i < v.len()
        invariant
            i <= v@.len(),
            m == grammar::uses_v(v@),
            order_map::seek(m, k@, 0) == order_map::seek(m, k@, i as int),
        decreases v@.len() - i,
    {
        assert(m[i as int].0 == v@[i as int].0@);
        if same(v[i].0.as_str(), k) {
            return i;
        }
        i += 1;
    }
    i
}

/// The first pin from `i` on whose component was not visited, or the number of pins.
pub open spec fn unseen(v: grammar::PinRefs, seen: Seq<Seq<char>>, i: int) -> int
    decreases v.len() - i,
{
    if i < 0 || i >= v.len() || !seen.contains(v[i].0) {
        i
    } else {
        unseen(v, seen, i + 1)
    }
}

/// A walk: the links so far and the components visited.
#[verifier::ext_equal]
pub struct WalkV {
    pub links: Seq<LinkV>,
    pub seen: Seq<Seq<char>>,
}

/// One step of a walk, or none where the chain ends.
pub open spec fn next_link(b: Block, u: UsesV, w: WalkV) -> Option<WalkV> {
    if w.links.len() == 0 || !goes_through(u, w.links.last().b_net) {
        None
    } else {
        let tail = w.links.last().b_net;
        let pins = order_map::look(u, tail)->0.chain;
        let i = unseen(pins, w.seen, 0);
        if i >= pins.len() {
            None
        } else {
            match link_of(b, pins[i].0, tail) {
                Some(l) => Some(
                    WalkV { links: w.links.push(l), seen: names::set_add(w.seen, pins[i].0) },
                ),
                None => None,
            }
        }
    }
}

/// A walk after at most `fuel` more steps. No component is visited twice, so as many steps as there
/// are components are enough.
pub open spec fn walked(b: Block, u: UsesV, w: WalkV, fuel: nat) -> WalkV
    decreases fuel,
{
    if fuel == 0 {
        w
    } else {
        match next_link(b, u, w) {
            Some(x) => walked(b, u, x, (fuel - 1) as nat),
            None => w,
        }
    }
}

/// The chain from a component that is entered from a net.
pub open spec fn chain_from(
    b: Block,
    u: UsesV,
    refdes: Seq<char>,
    net: Seq<char>,
    seen: Seq<Seq<char>>,
) -> WalkV {
    match link_of(b, refdes, net) {
        Some(l) => walked(
            b,
            u,
            WalkV { links: seq![l], seen: names::set_add(seen, refdes) },
            b.components@.len(),
        ),
        None => WalkV { links: Seq::empty(), seen: names::set_add(seen, refdes) },
    }
}

pub open spec fn links_v(v: Seq<Link>) -> Seq<LinkV> {
    Seq::new(v.len(), |i: int| v[i]@)
}

fn find_unseen(v: &Vec<(String, String)>, seen: &Vec<String>) -> (r: usize)
    ensures
        r <= v@.len(),
        r == unseen(grammar::pairs(v@), text::views(seen@), 0),
{
    let ghost m = grammar::pairs(v@);
    let mut i: usize = 0;
    while i < v.len()
        invariant
            i <= v@.len(),
            m == grammar::pairs(v@),
            unseen(m, text::views(seen@), 0) == unseen(m, text::views(seen@), i as int),
        decreases v@.len() - i,
    {
        assert(m[i as int].0 == v@[i as int].0@);
        if !has_name(seen, v[i].0.as_str()) {
            return i;
        }
        i += 1;
    }
    i
}

fn step(b: &Block, u: &Vec<(String, NetUse)>, links: &mut Vec<Link>, seen: &mut Vec<String>) -> (r:
    bool)
    ensures
        match next_link(
            *b,
            grammar::uses_v(u@),
            (WalkV { links: links_v(old(links)@), seen: text::views(old(seen)@) }),
        ) {
            Some(w) => r && w.links == links_v(final(links)@) && w.seen == text::views(
                final(seen)@,
            ),
            None => !r && final(links)@ == old(links)@ && final(seen)@ == old(seen)@,
        },
{
    let ghost uv = grammar::uses_v(u@);
    let ghost lv = links_v(links@);
    let n = links.len();
    if n == 0 {
        return false;
    }
    assert(lv.last() == links@[n - 1]@);
    let tail = links[n - 1].b_net.clone();
    if !through(u, tail.as_str()) {
        return false;
    }
    let k = seek(u, tail.as_str());
    assert(uv[k as int] == (u@[k as int].0@, u@[k as int].1@));
    let pins = &u[k].1.chain_pins;
    let i = find_unseen(pins, seen);
    assert(grammar::pairs(pins@).len() == pins@.len());
    if i >= pins.len() {
        return false;
    }
    assert(grammar::pairs(pins@)[i as int].0 == pins@[i as int].0@);
    match Link::of(b, pins[i].0.as_str(), tail.as_str()) {
        Some(l) => {
            let ghost x = l@;
            links.push(l);
            assert(links_v(links@) =~= lv.push(x));
            add_distinct(seen, pins[i].0.clone());
            true
        },
        None => false,
    }
}

/// Walks the chain from a component that is entered from a net.
pub fn walk(
    b: &Block,
    u: &Vec<(String, NetUse)>,
    refdes: &str,
    net: &str,
    seen: &mut Vec<String>,
) -> (r: Vec<Link>)
    ensures
        (WalkV { links: links_v(r@), seen: text::views(final(seen)@) }) == chain_from(
            *b,
            grammar::uses_v(u@),
            refdes@,
            net@,
            text::views(old(seen)@),
        ),
{
    let ghost uv = grammar::uses_v(u@);
    let mut links: Vec<Link> = Vec::new();
    let first = Link::of(b, refdes, net);
    add_distinct(seen, refdes.to_owned());
    match first {
        None => {
            assert(links_v(links@) =~= Seq::empty());
            return links;
        },
        Some(l) => {
            let ghost x = l@;
            links.push(l);
            assert(links_v(links@) =~= seq![x]);
        },
    }
    let ghost w0 = WalkV { links: links_v(links@), seen: text::views(seen@) };
    let mut fuel: usize = b.components.len();
    let mut more = true;
    while fuel > 0 && more
        invariant
            fuel <= b.components@.len(),
            uv == grammar::uses_v(u@),
            more ==> walked(*b, uv, w0, b.components@.len()) == walked(
                *b,
                uv,
                (WalkV { links: links_v(links@), seen: text::views(seen@) }),
                fuel as nat,
            ),
            !more ==> walked(*b, uv, w0, b.components@.len()) == (WalkV {
                links: links_v(links@),
                seen: text::views(seen@),
            }),
        decreases fuel,
    {
        more = step(b, u, &mut links, seen);
        fuel -= 1;
    }
    links
}

/// Chains found so far, with notes.
#[verifier::ext_equal]
pub struct ChainsV {
    pub chains: Seq<Seq<LinkV>>,
    pub notes: Seq<Seq<char>>,
    pub seen: Seq<Seq<char>>,
}

/// The chains after those that start at one of the first `n` pins of a net.
pub open spec fn from_pins(
    s: ChainsV,
    b: Block,
    u: UsesV,
    net: Seq<char>,
    pins: grammar::PinRefs,
    n: int,
) -> ChainsV
    decreases n,
{
    if n <= 0 {
        s
    } else {
        let x = from_pins(s, b, u, net, pins, n - 1);
        if x.seen.contains(pins[n - 1].0) {
            x
        } else {
            let w = chain_from(b, u, pins[n - 1].0, net, x.seen);
            ChainsV { chains: x.chains.push(w.links), seen: w.seen, ..x }
        }
    }
}

/// The chains that start at one of the first `n` nets that no chain goes through.
pub open spec fn from_nets(b: Block, u: UsesV, n: int) -> ChainsV
    decreases n,
{
    if n <= 0 {
        ChainsV { chains: Seq::empty(), notes: Seq::empty(), seen: Seq::empty() }
    } else {
        let x = from_nets(b, u, n - 1);
        if goes_through(u, u[n - 1].0) {
            x
        } else {
            from_pins(x, b, u, u[n - 1].0, u[n - 1].1.chain, u[n - 1].1.chain.len() as int)
        }
    }
}

pub open spec fn names_in_order(v: Seq<Seq<char>>, n: int) -> Seq<Seq<char>>
    decreases n,
{
    if n <= 0 {
        Seq::empty()
    } else {
        let s = names_in_order(v, n - 1);
        s.insert(natural::nat_place(s, v[n - 1], 0), v[n - 1])
    }
}

/// The names among the first `n` that were not visited.
pub open spec fn not_seen(v: Seq<Seq<char>>, seen: Seq<Seq<char>>, n: int) -> Seq<Seq<char>>
    decreases n,
{
    if n <= 0 {
        Seq::empty()
    } else if seen.contains(v[n - 1]) {
        not_seen(v, seen, n - 1)
    } else {
        not_seen(v, seen, n - 1).push(v[n - 1])
    }
}

/// The first net of a component.
pub open spec fn first_net(b: Block, refdes: Seq<char>) -> Option<Seq<char>> {
    match order_map::look(reconcile::named(b.components@), refdes) {
        None => None,
        Some(c) => {
            let i = net_pin(c.pins@, 0);
            if i < c.pins@.len() {
                Some(c.pins@[i].1->Net_0@)
            } else {
                None
            }
        },
    }
}

pub open spec fn cycle_note(refdes: Seq<char>, net: Seq<char>) -> Seq<char> {
    "cycle through "@ + refdes + " broken at net "@ + net
        + " (feedback loops degrade to labels)"@
}

/// The chains after the first `n` elements that are left over: each belongs to a cycle, which is
/// broken there.
pub open spec fn from_cycles(s: ChainsV, b: Block, u: UsesV, left: Seq<Seq<char>>, n: int) -> ChainsV
    decreases n,
{
    if n <= 0 {
        s
    } else {
        let x = from_cycles(s, b, u, left, n - 1);
        let r = left[n - 1];
        match first_net(b, r) {
            Some(net) => if x.seen.contains(r) {
                x
            } else {
                let w = chain_from(b, u, r, net, x.seen);
                ChainsV {
                    chains: x.chains.push(w.links),
                    notes: x.notes.push(cycle_note(r, net)),
                    seen: w.seen,
                }
            },
            None => x,
        }
    }
}

/// All chains of a block.
pub open spec fn chains_of(b: Block, u: UsesV, elements: Seq<Seq<char>>) -> ChainsV {
    let s = from_nets(b, u, u.len() as int);
    let left = not_seen(elements, s.seen, elements.len() as int);
    let o = names_in_order(left, left.len() as int);
    from_cycles(s, b, u, o, o.len() as int)
}

pub open spec fn chains_v(v: Seq<Vec<Link>>) -> Seq<Seq<LinkV>> {
    Seq::new(v.len(), |i: int| links_v(v[i]@))
}

fn sort_natural(v: &Vec<String>) -> (r: Vec<String>)
    ensures
        text::views(r@) == names_in_order(text::views(v@), v@.len() as int),
{
    let ghost vv = text::views(v@);
    let mut r: Vec<String> = Vec::new();
    let mut i: usize = 0;
    assert(text::views(r@) =~= Seq::empty());
    while i < v.len()
        invariant
            i <= v@.len(),
            vv == text::views(v@),
            text::views(r@) == names_in_order(vv, i as int),
        decreases v@.len() - i,
    {
        let ghost s = text::views(r@);
        assert(vv[i as int] == v@[i as int]@);
        let mut k: usize = 0;
        while k < r.len() && !natural_before(v[i].as_str(), r[k].as_str())
            invariant
                i < v@.len(),
                k <= r@.len(),
                s == text::views(r@),
                natural::nat_place(s, v@[i as int]@, 0) == natural::nat_place(
                    s,
                    v@[i as int]@,
                    k as int,
                ),
            decreases r@.len() - k,
        {
            assert(s[k as int] == r@[k as int]@);
            k += 1;
        }
        if k < r.len() {
            assert(s[k as int] == r@[k as int]@);
        }
        r.insert(k, v[i].clone());
        assert(text::views(r@) =~= s.insert(k as int, vv[i as int]));
        i += 1;
    }
    r
}

fn net_of_first(b: &Block, refdes: &str) -> (r: Option<String>)
    ensures
        match r {
            Some(n) => first_net(*b, refdes@) == Some(n@),
            None => first_net(*b, refdes@) is None,
        },
{
    match find_named(&b.components, refdes) {
        None => None,
        Some(c) => {
            let i = net_pin_at(c, 0);
            if i < c.pins.len() {
                match &c.pins[i].1 {
                    PinTarget::Net(n) => Some(n.clone()),
                    PinTarget::NoConnect => None,
                }
            } else {
                None
            }
        },
    }
}

/// The chains of a block, and a note for each cycle that had to be broken. Chains start at nets that
/// no chain goes through, in the order of the nets; the elements left over are taken in natural
/// order.
pub fn raw_chains(b: &Block, u: &Vec<(String, NetUse)>, elements: &Vec<String>) -> (r: (
    Vec<Vec<Link>>,
    Vec<String>,
))
    ensures
        ({
            let want = chains_of(*b, grammar::uses_v(u@), text::views(elements@));
            chains_v(r.0@) == want.chains && text::views(r.1@) == want.notes
        }),
{
    let ghost uv = grammar::uses_v(u@);
    let mut seen: Vec<String> = Vec::new();
    let mut chains: Vec<Vec<Link>> = Vec::new();
    let mut notes: Vec<String> = Vec::new();
    assert(text::views(seen@) =~= Seq::empty());
    assert(chains_v(chains@) =~= Seq::empty());
    assert(text::views(notes@) =~= Seq::empty());
    let mut i: usize = 0;
    while i < u.len()
        invariant
            i <= u@.len(),
            uv == grammar::uses_v(u@),
            (ChainsV {
                chains: chains_v(chains@),
                notes: text::views(notes@),
                seen: text::views(seen@),
            }) == from_nets(*b, uv, i as int),
        decreases u@.len() - i,
    {
        assert(uv[i as int] == (u@[i as int].0@, u@[i as int].1@));
        let net = u[i].0.as_str();
        if !through(u, net) {
            let pins = &u[i].1.chain_pins;
            let ghost pv = grammar::pairs(pins@);
            let ghost s = ChainsV {
                chains: chains_v(chains@),
                notes: text::views(notes@),
                seen: text::views(seen@),
            };
            let mut k: usize = 0;
            while k < pins.len()
                invariant
                    k <= pins@.len(),
                    uv == grammar::uses_v(u@),
                    pv == grammar::pairs(pins@),
                    (ChainsV {
                        chains: chains_v(chains@),
                        notes: text::views(notes@),
                        seen: text::views(seen@),
                    }) == from_pins(s, *b, uv, net@, pv, k as int),
                decreases pins@.len() - k,
            {
                assert(pv[k as int].0 == pins@[k as int].0@);
                if !has_name(&seen, pins[k].0.as_str()) {
                    let ghost c = chains_v(chains@);
                    let l = walk(b, u, pins[k].0.as_str(), net, &mut seen);
                    let ghost lv = links_v(l@);
                    chains.push(l);
                    assert(chains_v(chains@) =~= c.push(lv));
                }
                k += 1;
            }
            assert(pv.len() == pins@.len());
        }
        i += 1;
    }
    assert(uv.len() == u@.len());
    let ghost s = from_nets(*b, uv, uv.len() as int);
    let ghost ev = text::views(elements@);
    let mut left: Vec<String> = Vec::new();
    i = 0;
    assert(text::views(left@) =~= Seq::empty());
    while i < elements.len()
        invariant
            i <= elements@.len(),
            ev == text::views(elements@),
            s.seen == text::views(seen@),
            text::views(left@) == not_seen(ev, s.seen, i as int),
        decreases elements@.len() - i,
    {
        assert(ev[i as int] == elements@[i as int]@);
        if !has_name(&seen, elements[i].as_str()) {
            let ghost c = text::views(left@);
            left.push(elements[i].clone());
            assert(text::views(left@) =~= c.push(ev[i as int]));
        }
        i += 1;
    }
    assert(ev.len() == elements@.len());
    assert(text::views(left@).len() == left@.len());
    let order = sort_natural(&left);
    let ghost ov = text::views(order@);
    i = 0;
    while i < order.len()
        invariant
            i <= order@.len(),
            uv == grammar::uses_v(u@),
            ov == text::views(order@),
            (ChainsV {
                chains: chains_v(chains@),
                notes: text::views(notes@),
                seen: text::views(seen@),
            }) == from_cycles(s, *b, uv, ov, i as int),
        decreases order@.len() - i,
    {
        assert(ov[i as int] == order@[i as int]@);
        if let Some(net) = net_of_first(b, order[i].as_str()) {
            if !has_name(&seen, order[i].as_str()) {
                let ghost (c, n) = (chains_v(chains@), text::views(notes@));
                let note = Line::of("cycle through ").add(order[i].as_str()).add(
                    " broken at net ",
                ).add(net.as_str()).add(" (feedback loops degrade to labels)").done();
                let ghost nv = note@;
                notes.push(note);
                assert(text::views(notes@) =~= n.push(nv));
                let l = walk(b, u, order[i].as_str(), net.as_str(), &mut seen);
                let ghost lv = links_v(l@);
                chains.push(l);
                assert(chains_v(chains@) =~= c.push(lv));
            }
        }
        i += 1;
    }
    assert(ov.len() == order@.len());
    (chains, notes)
}

// ---------------------------------------------------------------- each element in one chain
/// The components of a chain.
pub open spec fn members(v: Seq<LinkV>) -> Seq<Seq<char>> {
    Seq::new(v.len(), |i: int| v[i].refdes)
}

/// The components of chains, one chain behind the other.
pub open spec fn all_members(v: Seq<Seq<LinkV>>) -> Seq<Seq<char>>
    decreases v.len(),
{
    if v.len() == 0 {
        Seq::empty()
    } else {
        all_members(v.drop_last()) + members(v.last())
    }
}

/// Whether the elements are those that can be in a chain: every chain pin of a net belongs to one,
/// and each can be entered from its nets.
pub open spec fn linkable(b: Block, u: UsesV, elements: Seq<Seq<char>>) -> bool {
    &&& forall|i: int, j: int|
        #![trigger u[i].1.chain[j]]
        0 <= i < u.len() && 0 <= j < u[i].1.chain.len() ==> link_of(
            b,
            u[i].1.chain[j].0,
            u[i].0,
        ) is Some && elements.contains(u[i].1.chain[j].0)
    &&& forall|i: int|
        0 <= i < elements.len() ==> {
            let n = first_net(b, #[trigger] elements[i]);
            n is Some && link_of(b, elements[i], n->0) is Some
        }
}

/// Whether a list holds what was visited, each component once, and only elements.
spec fn listed(v: Seq<Seq<char>>, seen: Seq<Seq<char>>, elements: Seq<Seq<char>>) -> bool {
    &&& v.no_duplicates()
    &&& forall|x: Seq<char>| #[trigger] v.contains(x) <==> seen.contains(x)
    &&& forall|x: Seq<char>| #[trigger] v.contains(x) ==> elements.contains(x)
}

proof fn lemma_listed(
    v: Seq<Seq<char>>,
    seen: Seq<Seq<char>>,
    elements: Seq<Seq<char>>,
    r: Seq<char>,
)
    requires
        listed(v, seen, elements),
        !seen.contains(r),
        elements.contains(r),
    ensures
        listed(v.push(r), names::set_add(seen, r), elements),
{
    let w = v.push(r);
    assert forall|x: Seq<char>| #[trigger] w.contains(x) <==> v.contains(x) || x == r by {
        if v.contains(x) {
            let i = choose|i: int| 0 <= i < v.len() && v[i] == x;
            assert(w[i] == x);
        }
        assert(w[v.len() as int] == r);
    }
    assert forall|x: Seq<char>| #[trigger] w.contains(x) <==> names::set_add(seen, r).contains(
        x,
    ) by {
        names::lemma_add_contains(seen, r, x);
        assert(v.contains(x) <==> seen.contains(x));
    }
    assert forall|x: Seq<char>| #[trigger] w.contains(x) implies elements.contains(x) by {
        assert(v.contains(x) ==> elements.contains(x));
    }
    assert(!v.contains(r));
    assert(w.no_duplicates()) by {
        assert forall|i: int, j: int| 0 <= i < w.len() && 0 <= j < w.len() && i != j implies w[i]
            != w[j] by {
            if i < v.len() {
                assert(v.contains(v[i]));
            }
            if j < v.len() {
                assert(v.contains(v[j]));
            }
        }
    }
}

proof fn lemma_unseen(v: grammar::PinRefs, seen: Seq<Seq<char>>, i: int)
    requires
        0 <= i <= v.len(),
    ensures
        i <= unseen(v, seen, i) <= v.len(),
        unseen(v, seen, i) < v.len() ==> !seen.contains(v[unseen(v, seen, i)].0),
    decreases v.len() - i,
{
    if i < v.len() && seen.contains(v[i].0) {
        lemma_unseen(v, seen, i + 1);
    }
}

proof fn lemma_walk(
    f: Seq<Seq<char>>,
    b: Block,
    u: UsesV,
    elements: Seq<Seq<char>>,
    w: WalkV,
    fuel: nat,
)
    requires
        linkable(b, u, elements),
        listed(f + members(w.links), w.seen, elements),
    ensures
        listed(
            f + members(walked(b, u, w, fuel).links),
            walked(b, u, w, fuel).seen,
            elements,
        ),
    decreases fuel,
{
    if fuel > 0 {
        match next_link(b, u, w) {
            Some(x) => {
                let tail = w.links.last().b_net;
                order_map::lemma_seek(u, tail, 0);
                let k = order_map::seek(u, tail, 0);
                let pins = order_map::look(u, tail)->0.chain;
                lemma_unseen(pins, w.seen, 0);
                let i = unseen(pins, w.seen, 0);
                assert(pins == u[k].1.chain);
                assert(u[k].1.chain[i] == pins[i]);
                lemma_listed(f + members(w.links), w.seen, elements, pins[i].0);
                assert(f + members(x.links) =~= (f + members(w.links)).push(pins[i].0));
                lemma_walk(f, b, u, elements, x, (fuel - 1) as nat);
            },
            None => {},
        }
    }
}

proof fn lemma_chain(
    f: Seq<Seq<char>>,
    b: Block,
    u: UsesV,
    elements: Seq<Seq<char>>,
    r: Seq<char>,
    net: Seq<char>,
    seen: Seq<Seq<char>>,
)
    requires
        linkable(b, u, elements),
        listed(f, seen, elements),
        !seen.contains(r),
        elements.contains(r),
        link_of(b, r, net) is Some,
    ensures
        listed(
            f + members(chain_from(b, u, r, net, seen).links),
            chain_from(b, u, r, net, seen).seen,
            elements,
        ),
        forall|x: Seq<char>| #[trigger]
            seen.contains(x) ==> chain_from(b, u, r, net, seen).seen.contains(x),
        chain_from(b, u, r, net, seen).seen.contains(r),
{
    let l = link_of(b, r, net)->0;
    let w = WalkV { links: seq![l], seen: names::set_add(seen, r) };
    lemma_listed(f, seen, elements, r);
    assert(f + members(w.links) =~= f.push(r));
    lemma_walk(f, b, u, elements, w, b.components@.len());
    lemma_walk_keeps(b, u, w, b.components@.len());
    assert forall|x: Seq<char>| #[trigger] seen.contains(x) || x == r implies chain_from(
        b,
        u,
        r,
        net,
        seen,
    ).seen.contains(x) by {
        names::lemma_add_contains(seen, r, x);
        assert(w.seen.contains(x));
    }
}

proof fn lemma_walk_keeps(b: Block, u: UsesV, w: WalkV, fuel: nat)
    ensures
        forall|x: Seq<char>| #[trigger]
            w.seen.contains(x) ==> walked(b, u, w, fuel).seen.contains(x),
    decreases fuel,
{
    if fuel > 0 {
        match next_link(b, u, w) {
            Some(n) => {
                lemma_walk_keeps(b, u, n, (fuel - 1) as nat);
                let tail = w.links.last().b_net;
                let pins = order_map::look(u, tail)->0.chain;
                let i = unseen(pins, w.seen, 0);
                assert forall|x: Seq<char>| #[trigger] w.seen.contains(x) implies walked(
                    b,
                    u,
                    w,
                    fuel,
                ).seen.contains(x) by {
                    names::lemma_add_contains(w.seen, pins[i].0, x);
                    assert(n.seen.contains(x));
                }
            },
            None => {},
        }
    }
}

spec fn complete(s: ChainsV, elements: Seq<Seq<char>>) -> bool {
    listed(all_members(s.chains), s.seen, elements)
}

proof fn lemma_more(s: ChainsV, links: Seq<LinkV>)
    ensures
        all_members(s.chains.push(links)) == all_members(s.chains) + members(links),
{
    assert(s.chains.push(links).drop_last() =~= s.chains);
}

proof fn lemma_from_pins(
    s: ChainsV,
    b: Block,
    u: UsesV,
    elements: Seq<Seq<char>>,
    k: int,
    n: int,
)
    requires
        linkable(b, u, elements),
        complete(s, elements),
        0 <= k < u.len(),
        0 <= n <= u[k].1.chain.len(),
    ensures
        complete(from_pins(s, b, u, u[k].0, u[k].1.chain, n), elements),
    decreases n,
{
    if n > 0 {
        lemma_from_pins(s, b, u, elements, k, n - 1);
        let x = from_pins(s, b, u, u[k].0, u[k].1.chain, n - 1);
        let r = u[k].1.chain[n - 1].0;
        if !x.seen.contains(r) {
            lemma_chain(all_members(x.chains), b, u, elements, r, u[k].0, x.seen);
            lemma_more(x, chain_from(b, u, r, u[k].0, x.seen).links);
        }
    }
}

proof fn lemma_from_nets(b: Block, u: UsesV, elements: Seq<Seq<char>>, n: int)
    requires
        linkable(b, u, elements),
        0 <= n <= u.len(),
    ensures
        complete(from_nets(b, u, n), elements),
    decreases n,
{
    if n > 0 {
        lemma_from_nets(b, u, elements, n - 1);
        let x = from_nets(b, u, n - 1);
        lemma_from_pins(x, b, u, elements, n - 1, u[n - 1].1.chain.len() as int);
    }
}

proof fn lemma_from_cycles(
    s: ChainsV,
    b: Block,
    u: UsesV,
    elements: Seq<Seq<char>>,
    left: Seq<Seq<char>>,
    n: int,
)
    requires
        linkable(b, u, elements),
        complete(s, elements),
        0 <= n <= left.len(),
        forall|i: int| 0 <= i < left.len() ==> elements.contains(#[trigger] left[i]),
    ensures
        complete(from_cycles(s, b, u, left, n), elements),
        forall|x: Seq<char>| #[trigger]
            s.seen.contains(x) ==> from_cycles(s, b, u, left, n).seen.contains(x),
        forall|i: int|
            0 <= i < n ==> from_cycles(s, b, u, left, n).seen.contains(#[trigger] left[i]),
    decreases n,
{
    if n > 0 {
        lemma_from_cycles(s, b, u, elements, left, n - 1);
        let x = from_cycles(s, b, u, left, n - 1);
        let r = left[n - 1];
        assert(elements.contains(r));
        let e = choose|e: int| 0 <= e < elements.len() && elements[e] == r;
        assert(first_net(b, elements[e]) is Some);
        let net = first_net(b, r)->0;
        if !x.seen.contains(r) {
            lemma_chain(all_members(x.chains), b, u, elements, r, net, x.seen);
            lemma_more(x, chain_from(b, u, r, net, x.seen).links);
        }
    }
}

proof fn lemma_not_seen(v: Seq<Seq<char>>, seen: Seq<Seq<char>>, n: int)
    requires
        0 <= n <= v.len(),
    ensures
        forall|i: int|
            0 <= i < n ==> seen.contains(#[trigger] v[i]) || not_seen(v, seen, n).contains(v[i]),
        forall|x: Seq<char>| #[trigger] not_seen(v, seen, n).contains(x) ==> v.contains(x),
    decreases n,
{
    if n > 0 {
        lemma_not_seen(v, seen, n - 1);
        let s = not_seen(v, seen, n - 1);
        let r = not_seen(v, seen, n);
        assert forall|x: Seq<char>| #[trigger] s.contains(x) implies r.contains(x) by {
            let i = choose|i: int| 0 <= i < s.len() && s[i] == x;
            assert(r[i] == x);
        }
        if !seen.contains(v[n - 1]) {
            assert(r[s.len() as int] == v[n - 1]);
        }
        assert forall|x: Seq<char>| #[trigger] r.contains(x) implies v.contains(x) by {
            let i = choose|i: int| 0 <= i < r.len() && r[i] == x;
            if i < s.len() {
                assert(s[i] == x);
                assert(s.contains(x));
            }
        }
    }
}

pub(crate) proof fn lemma_nat_place(s: Seq<Seq<char>>, x: Seq<char>, i: int)
    requires
        0 <= i <= s.len(),
    ensures
        i <= natural::nat_place(s, x, i) <= s.len(),
    decreases s.len() - i,
{
    if natural::nat_place(s, x, i) != i && i < s.len() {
        lemma_nat_place(s, x, i + 1);
    }
}

proof fn lemma_in_order(v: Seq<Seq<char>>, n: int)
    requires
        0 <= n <= v.len(),
    ensures
        forall|x: Seq<char>| #[trigger] names_in_order(v, n).contains(x) <==> v.take(n).contains(x),
    decreases n,
{
    if n > 0 {
        lemma_in_order(v, n - 1);
        let s = names_in_order(v, n - 1);
        let p = natural::nat_place(s, v[n - 1], 0);
        lemma_nat_place(s, v[n - 1], 0);
        let r = s.insert(p, v[n - 1]);
        assert forall|x: Seq<char>| #[trigger] r.contains(x) <==> v.take(n).contains(x) by {
            assert(s.contains(x) <==> v.take(n - 1).contains(x));
            if r.contains(x) {
                let i = choose|i: int| 0 <= i < r.len() && r[i] == x;
                if i < p {
                    assert(s[i] == x);
                } else if i > p {
                    assert(s[i - 1] == x);
                }
                if s.contains(x) {
                    let j = choose|j: int| 0 <= j < n - 1 && #[trigger] v.take(n - 1)[j] == x;
                    assert(v.take(n)[j] == x);
                } else {
                    assert(v.take(n)[n - 1] == x);
                }
            }
            if v.take(n).contains(x) {
                let j = choose|j: int| 0 <= j < n && #[trigger] v.take(n)[j] == x;
                if j < n - 1 {
                    assert(v.take(n - 1)[j] == x);
                    let i = choose|i: int| 0 <= i < s.len() && s[i] == x;
                    if i < p {
                        assert(r[i] == x);
                    } else {
                        assert(r[i + 1] == x);
                    }
                } else {
                    assert(r[p] == x);
                }
            }
        }
    }
}

/// Every element is in exactly one chain, once, and chains hold nothing but elements.
pub proof fn each_element_is_in_one_chain(b: Block, u: UsesV, elements: Seq<Seq<char>>)
    requires
        linkable(b, u, elements),
    ensures
        all_members(chains_of(b, u, elements).chains).no_duplicates(),
        forall|x: Seq<char>| #[trigger]
            all_members(chains_of(b, u, elements).chains).contains(x) <==> elements.contains(x),
{
    let s = from_nets(b, u, u.len() as int);
    lemma_from_nets(b, u, elements, u.len() as int);
    let left = not_seen(elements, s.seen, elements.len() as int);
    lemma_not_seen(elements, s.seen, elements.len() as int);
    let o = names_in_order(left, left.len() as int);
    lemma_in_order(left, left.len() as int);
    assert(left.take(left.len() as int) =~= left);
    assert forall|i: int| 0 <= i < o.len() implies elements.contains(#[trigger] o[i]) by {
        assert(o.contains(o[i]));
    }
    lemma_from_cycles(s, b, u, elements, o, o.len() as int);
    let r = from_cycles(s, b, u, o, o.len() as int);
    assert forall|x: Seq<char>| #[trigger] all_members(r.chains).contains(x)
        <==> elements.contains(x) by {
        if elements.contains(x) {
            let i = choose|i: int| 0 <= i < elements.len() && elements[i] == x;
            assert(s.seen.contains(elements[i]) || left.contains(elements[i]));
            if left.contains(x) {
                assert(o.contains(x));
                let j = choose|j: int| 0 <= j < o.len() && o[j] == x;
                assert(r.seen.contains(o[j]));
            }
            assert(r.seen.contains(x));
        }
    }
}

} // verus!
