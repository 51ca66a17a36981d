//! What meets on the nets of a block can be linked to chains.
use crate::chains;
use crate::chains::{all_members, chains_of, first_net, link_of, linkable};
use crate::grammar;
use crate::grammar::{PinRefs, Role, UseV, UsesV};
use crate::kernel;
use crate::kernel::{Block, Design, Provider};
use crate::natural;
use crate::order_map;
use crate::reconcile;
use vstd::prelude::*;

verus! {

/// The components of a block by name.
pub open spec fn parts_of(b: Block) -> Seq<(Seq<char>, kernel::Component)> {
    reconcile::named(b.components@)
}

/// Whether a component of the first `n` of a block can be in a chain.
pub open spec fn element_in(b: Block, p: Provider, r: Seq<char>, n: int) -> bool {
    exists|i: int|
        0 <= i < n && (#[trigger] parts_of(b)[i]).0 == r && grammar::role_spec(parts_of(b)[i].1, p)
            == Role::ChainElement
}

/// Whether a list names the components of a block that can be in a chain.
pub open spec fn lists_elements(b: Block, p: Provider, elements: Seq<Seq<char>>) -> bool {
    forall|r: Seq<char>| #[trigger]
        elements.contains(r) <==> element_in(b, p, r, b.components@.len() as int)
}

/// Whether every chain pin belongs to such a component.
spec fn pins_fine(b: Block, p: Provider, v: PinRefs, n: int) -> bool {
    forall|j: int| 0 <= j < v.len() ==> element_in(b, p, (#[trigger] v[j]).0, n)
}

spec fn uses_fine(b: Block, p: Provider, u: UsesV, n: int) -> bool {
    forall|i: int| 0 <= i < u.len() ==> pins_fine(b, p, (#[trigger] u[i]).1.chain, n)
}

proof fn lemma_more(b: Block, p: Provider, u: UsesV, n: int)
    requires
        uses_fine(b, p, u, n),
    ensures
        uses_fine(b, p, u, n + 1),
{
    assert forall|i: int| 0 <= i < u.len() implies pins_fine(
        b,
        p,
        (#[trigger] u[i]).1.chain,
        n + 1,
    ) by {
        let v = u[i].1.chain;
        assert forall|j: int| 0 <= j < v.len() implies element_in(b, p, (#[trigger] v[j]).0, n + 1) by {
            assert(element_in(b, p, v[j].0, n));
            let q = choose|q: int|
                0 <= q < n && (#[trigger] parts_of(b)[q]).0 == v[j].0 && grammar::role_spec(
                    parts_of(b)[q].1,
                    p,
                ) == Role::ChainElement;
            assert(parts_of(b)[q].0 == v[j].0);
        }
    }
}

proof fn lemma_put(b: Block, p: Provider, u: UsesV, k: Seq<char>, x: UseV, n: int)
    requires
        uses_fine(b, p, u, n),
        pins_fine(b, p, x.chain, n),
    ensures
        uses_fine(b, p, order_map::put(u, k, x), n),
{
    order_map::lemma_seek(u, k, 0);
    let r = order_map::put(u, k, x);
    let s = order_map::seek(u, k, 0);
    assert forall|i: int| 0 <= i < r.len() implies pins_fine(b, p, (#[trigger] r[i]).1.chain, n) by {
        if i != s && i < u.len() {
            assert(r[i] == u[i]);
        }
    }
}

proof fn lemma_found(b: Block, p: Provider, u: UsesV, k: Seq<char>, n: int)
    requires
        uses_fine(b, p, u, n),
    ensures
        pins_fine(b, p, grammar::use_or_none(order_map::look(u, k)).chain, n),
{
    order_map::lemma_seek(u, k, 0);
    let s = order_map::seek(u, k, 0);
    if s < u.len() {
        assert(pins_fine(b, p, u[s].1.chain, n));
    }
}

proof fn lemma_pins(
    b: Block,
    p: Provider,
    u: UsesV,
    role: Role,
    r: Seq<char>,
    pins: Seq<kernel::PinV>,
    nets: Seq<(String, bool)>,
    m: int,
    n: int,
)
    requires
        uses_fine(b, p, u, n),
        role == Role::ChainElement ==> element_in(b, p, r, n),
    ensures
        uses_fine(b, p, grammar::pins_used(u, role, r, pins, nets, m), n),
    decreases m,
{
    if m > 0 {
        lemma_pins(b, p, u, role, r, pins, nets, m - 1, n);
        let x = grammar::pins_used(u, role, r, pins, nets, m - 1);
        if let Some(net) = pins[m - 1].1 {
            lemma_found(b, p, x, net, n);
            let o = grammar::use_or_none(order_map::look(x, net));
            let power = o.power || grammar::is_power(nets, net);
            if role == Role::ChainElement {
                let y = UseV { chain: o.chain.push((r, pins[m - 1].0)), power, ..o };
                assert(pins_fine(b, p, y.chain, n)) by {
                    assert forall|j: int| 0 <= j < y.chain.len() implies element_in(
                        b,
                        p,
                        (#[trigger] y.chain[j]).0,
                        n,
                    ) by {
                        if j < o.chain.len() {
                            assert(y.chain[j] == o.chain[j]);
                        }
                    }
                }
                lemma_put(b, p, x, net, y, n);
            } else {
                let y = UseV { anchor: o.anchor.push((r, pins[m - 1].0)), power, ..o };
                lemma_put(b, p, x, net, y, n);
            }
        }
    }
}

proof fn lemma_parts(b: Block, p: Provider, nets: Seq<(String, bool)>, n: int)
    requires
        0 <= n <= b.components@.len(),
    ensures
        uses_fine(b, p, grammar::parts_used(b, p, nets, n), n),
    decreases n,
{
    if n > 0 {
        lemma_parts(b, p, nets, n - 1);
        let u = grammar::parts_used(b, p, nets, n - 1);
        lemma_more(b, p, u, n - 1);
        let c = b.components@[n - 1];
        let pins = kernel::all_pins(c.1);
        let role = grammar::role_spec(c.1, p);
        if role == Role::ChainElement {
            assert(parts_of(b)[n - 1].0 == c.0@);
            assert(element_in(b, p, c.0@, n));
        }
        lemma_pins(b, p, u, role, c.0@, pins, nets, pins.len() as int, n);
    }
}

proof fn lemma_outside(b: Block, p: Provider, u: UsesV, pins: Seq<kernel::PinV>, m: int, n: int)
    requires
        uses_fine(b, p, u, n),
    ensures
        uses_fine(b, p, grammar::pins_outside(u, pins, m), n),
    decreases m,
{
    if m > 0 {
        lemma_outside(b, p, u, pins, m - 1, n);
        let x = grammar::pins_outside(u, pins, m - 1);
        if let Some(net) = pins[m - 1].1 {
            lemma_found(b, p, x, net, n);
            if let Some(o) = order_map::look(x, net) {
                lemma_put(b, p, x, net, UseV { external: true, ..o }, n);
            }
        }
    }
}

proof fn lemma_parts_outside(b: Block, p: Provider, u: UsesV, o: Block, m: int, n: int)
    requires
        uses_fine(b, p, u, n),
    ensures
        uses_fine(b, p, grammar::parts_outside(u, o, m), n),
    decreases m,
{
    if m > 0 {
        lemma_parts_outside(b, p, u, o, m - 1, n);
        let pins = kernel::all_pins(o.components@[m - 1].1);
        lemma_outside(b, p, grammar::parts_outside(u, o, m - 1), pins, pins.len() as int, n);
    }
}

proof fn lemma_blocks(
    b: Block,
    p: Provider,
    u: UsesV,
    own: Seq<char>,
    blocks: Seq<(String, Block)>,
    m: int,
    n: int,
)
    requires
        uses_fine(b, p, u, n),
    ensures
        uses_fine(b, p, grammar::blocks_outside(u, own, blocks, m), n),
    decreases m,
{
    if m > 0 {
        lemma_blocks(b, p, u, own, blocks, m - 1, n);
        let o = blocks[m - 1].1;
        lemma_parts_outside(
            b,
            p,
            grammar::blocks_outside(u, own, blocks, m - 1),
            o,
            o.components@.len() as int,
            n,
        );
    }
}

proof fn lemma_pin_order(b: Block, p: Provider, v: PinRefs, m: int, n: int)
    requires
        pins_fine(b, p, v, n),
        m <= v.len(),
    ensures
        pins_fine(b, p, grammar::in_order(v, m), n),
    decreases m,
{
    if m > 0 {
        lemma_pin_order(b, p, v, m - 1, n);
        let s = grammar::in_order(v, m - 1);
        let o = grammar::pin_orders(s);
        let k = natural::nat_place(o, grammar::pin_order(v[m - 1]), 0);
        chains::lemma_nat_place(o, grammar::pin_order(v[m - 1]), 0);
        let r = grammar::in_order(v, m);
        assert forall|j: int| 0 <= j < r.len() implies element_in(b, p, (#[trigger] r[j]).0, n) by {
            if j < k {
                assert(r[j] == s[j]);
            } else if j > k {
                assert(r[j] == s[j - 1]);
            } else {
                assert(r[j] == v[m - 1]);
            }
        }
    }
}

proof fn lemma_order(b: Block, p: Provider, v: UsesV, m: int, n: int)
    requires
        uses_fine(b, p, v, n),
        m <= v.len(),
    ensures
        uses_fine(b, p, grammar::uses_in_order(v, m), n),
    decreases m,
{
    if m > 0 {
        lemma_order(b, p, v, m - 1, n);
        let s = grammar::uses_in_order(v, m - 1);
        let o = grammar::keys_of(s);
        let k = natural::nat_place(o, v[m - 1].0, 0);
        chains::lemma_nat_place(o, v[m - 1].0, 0);
        let r = grammar::uses_in_order(v, m);
        assert(pins_fine(b, p, v[m - 1].1.chain, n));
        lemma_pin_order(b, p, v[m - 1].1.chain, v[m - 1].1.chain.len() as int, n);
        assert forall|i: int| 0 <= i < r.len() implies pins_fine(
            b,
            p,
            (#[trigger] r[i]).1.chain,
            n,
        ) by {
            if i < k {
                assert(r[i] == s[i]);
            } else if i > k {
                assert(r[i] == s[i - 1]);
            } else {
                assert(r[i].1 == grammar::use_in_order(v[m - 1].1));
            }
        }
    }
}

/// A component that can be in a chain is linked from any net, and has a first one.
proof fn lemma_element(b: Block, p: Provider, r: Seq<char>, from: Seq<char>)
    requires
        order_map::keys_once(parts_of(b)),
        element_in(b, p, r, b.components@.len() as int),
    ensures
        link_of(b, r, from) is Some,
        first_net(b, r) is Some,
{
    let m = parts_of(b);
    let i = choose|i: int|
        0 <= i < b.components@.len() && (#[trigger] m[i]).0 == r && grammar::role_spec(m[i].1, p)
            == Role::ChainElement;
    order_map::lemma_seek(m, r, 0);
    let s = order_map::seek(m, r, 0);
    if s < i {
        assert(m[s].0 != m[i].0);
    }
    assert(s == i);
    let c = m[i].1;
    assert(c.pins@[0].1 is Net && c.pins@[1].1 is Net);
    assert(chains::net_pin(c.pins@, 0) == 0);
    assert(chains::net_pin(c.pins@, 1) == 1);
}

/// What meets on the nets of a block is such that its elements can be linked: each element is in
/// exactly one of its chains, once, and its chains hold nothing but elements.
pub proof fn each_element_of_a_block_is_in_one_chain(
    d: Design,
    name: Seq<char>,
    b: Block,
    p: Provider,
    elements: Seq<Seq<char>>,
)
    requires
        order_map::keys_once(parts_of(b)),
        lists_elements(b, p, elements),
    ensures
        linkable(b, grammar::uses_of(d, name, b, p), elements),
        all_members(chains_of(b, grammar::uses_of(d, name, b, p), elements).chains).no_duplicates(),
        forall|x: Seq<char>| #[trigger]
            all_members(
                chains_of(b, grammar::uses_of(d, name, b, p), elements).chains,
            ).contains(x) <==> elements.contains(x),
{
    let n = b.components@.len() as int;
    let own = grammar::parts_used(b, p, d.nets@, n);
    lemma_parts(b, p, d.nets@, n);
    let all = grammar::blocks_outside(own, name, d.blocks@, d.blocks@.len() as int);
    lemma_blocks(b, p, own, name, d.blocks@, d.blocks@.len() as int, n);
    lemma_order(b, p, all, all.len() as int, n);
    let u = grammar::uses_of(d, name, b, p);
    assert forall|i: int, j: int|
        #![trigger u[i].1.chain[j]]
        0 <= i < u.len() && 0 <= j < u[i].1.chain.len() implies link_of(
        b,
        u[i].1.chain[j].0,
        u[i].0,
    ) is Some && elements.contains(u[i].1.chain[j].0) by {
        assert(pins_fine(b, p, u[i].1.chain, n));
        lemma_element(b, p, u[i].1.chain[j].0, u[i].0);
    }
    assert forall|i: int| 0 <= i < elements.len() implies ({
        let f = first_net(b, #[trigger] elements[i]);
        f is Some && link_of(b, elements[i], f->0) is Some
    }) by {
        assert(elements.contains(elements[i]));
        lemma_element(b, p, elements[i], Seq::empty());
        lemma_element(b, p, elements[i], first_net(b, elements[i])->0);
    }
    chains::each_element_is_in_one_chain(b, u, elements);
}

} // verus!
