//! The wire that the search finds is a cheapest way.
use crate::geom::Pt;
use crate::router;
use crate::router::{
    before_it, cells_to_path, compressed, enqueue, expand, found_wire, node_after, node_of, search,
    sound, start_of, start_state, trace, way, ArenaV, Cell, Item, Node, SearchV, WayV,
};
use vstd::prelude::*;

verus! {

pub open spec fn key_of(e: ArenaV, n: Node) -> u64 {
    e.key(n.x as int, n.y as int, n.d)
}

/// Where the first `i` steps of a way lead.
pub open spec fn stop(e: ArenaV, ds: Seq<u8>, i: int) -> Node {
    way(e, ds.take(i))->0.at
}

/// The cells of a way, the first included.
pub open spec fn cells_along(e: ArenaV, ds: Seq<u8>) -> Seq<Cell> {
    Seq::new(ds.len() + 1, |i: int| Cell { x: stop(e, ds, i).x, y: stop(e, ds, i).y })
}

/// The bends of a way.
pub open spec fn bends(e: ArenaV, ds: Seq<u8>) -> int
    decreases ds.len(),
{
    if ds.len() == 0 {
        0
    } else {
        let before = if ds.len() == 1 {
            e.da
        } else {
            ds[ds.len() - 2]
        };
        bends(e, ds.drop_last()) + (if ds.last() != before {
            1int
        } else {
            0
        })
    }
}

/// The wires of other nets that a way crosses.
pub open spec fn crossed(e: ArenaV, ds: Seq<u8>) -> int
    decreases ds.len(),
{
    if ds.len() == 0 {
        0
    } else {
        let n = way(e, ds)->0.at;
        crossed(e, ds.drop_last()) + (if e.wire_at(n.x as int, n.y as int, true) || e.wire_at(
            n.x as int,
            n.y as int,
            false,
        ) {
            1int
        } else {
            0
        })
    }
}

/// A way costs its length, five for each bend and ten for each crossing.
pub proof fn ways_cost_length_bends_and_crossings(e: ArenaV, ds: Seq<u8>)
    requires
        e.wf(),
        way(e, ds) is Some,
    ensures
        way(e, ds)->0.cost == ds.len() + 5 * bends(e, ds) + 10 * crossed(e, ds),
        way(e, ds)->0.at.d == (if ds.len() == 0 {
            e.da
        } else {
            ds.last()
        }),
    decreases ds.len(),
{
    router::lemma_window(e);
    router::lemma_way(e, ds);
    if ds.len() > 0 {
        ways_cost_length_bends_and_crossings(e, ds.drop_last());
        router::lemma_way(e, ds.drop_last());
    }
}

// ---------------------------------------------------------------- the way back
/// Whether the node behind the `i`-th step of a way is noted to come from the one before it.
spec fn hop(e: ArenaV, prev: Map<u64, Node>, ds: Seq<u8>, i: int) -> bool {
    let n = stop(e, ds, i);
    prev.contains_key(key_of(e, n)) && prev[key_of(e, n)] == stop(e, ds, i - 1) && n != start_of(e)
}

/// Whether a way leads to a node at a cost, and is noted step by step.
spec fn led(e: ArenaV, prev: Map<u64, Node>, n: Node, c: int, ds: Seq<u8>) -> bool {
    &&& way(e, ds) == Some(WayV { at: n, cost: c })
    &&& forall|i: int| 1 <= i <= ds.len() ==> #[trigger] hop(e, prev, ds, i)
}

proof fn lemma_stable(e: ArenaV, prev: Map<u64, Node>, n: Node, c: int, ds: Seq<u8>, k: u64, m: Node)
    requires
        led(e, prev, n, c, ds),
        !prev.contains_key(k),
    ensures
        led(e, prev.insert(k, m), n, c, ds),
{
    assert forall|i: int| 1 <= i <= ds.len() implies #[trigger] hop(e, prev.insert(k, m), ds, i) by {
        assert(hop(e, prev, ds, i));
    }
}

proof fn lemma_step(
    e: ArenaV,
    prev: Map<u64, Node>,
    m: Node,
    c: int,
    ds: Seq<u8>,
    d: u8,
    n: Node,
    cost: int,
)
    requires
        led(e, prev, m, c, ds),
        d < 4,
        e.step_cost(m, d) is Some,
        cost == c + e.step_cost(m, d)->0,
        n == node_after(m, d),
        n != start_of(e),
        !prev.contains_key(key_of(e, n)),
    ensures
        led(e, prev.insert(key_of(e, n), m), n, cost, ds.push(d)),
{
    let k = key_of(e, n);
    let p = prev.insert(k, m);
    let es = ds.push(d);
    lemma_stable(e, prev, m, c, ds, k, m);
    assert(es.drop_last() =~= ds);
    assert(es.last() == d);
    assert forall|i: int| 1 <= i <= es.len() implies #[trigger] hop(e, p, es, i) by {
        if i <= ds.len() {
            assert(hop(e, p, ds, i));
            assert(es.take(i) =~= ds.take(i));
            assert(es.take(i - 1) =~= ds.take(i - 1));
        } else {
            assert(es.take(i) =~= es);
            assert(es.take(i - 1) =~= ds);
        }
    }
}

#[verifier::rlimit(40)]
proof fn lemma_trace(e: ArenaV, prev: Map<u64, Node>, n: Node, c: int, ds: Seq<u8>, left: int)
    requires
        led(e, prev, n, c, ds),
        left > ds.len(),
    ensures
        trace(e, prev, n, left) == cells_along(e, ds),
    decreases ds.len(),
{
    let v = cells_along(e, ds);
    assert(ds.take(ds.len() as int) =~= ds);
    if ds.len() == 0 {
        assert(n == start_of(e));
        assert(trace(e, prev, n, left) =~= v);
    } else {
        let es = ds.drop_last();
        let w = way(e, es)->0;
        assert(hop(e, prev, ds, ds.len() as int));
        assert(ds.take(ds.len() - 1) =~= es);
        assert forall|i: int| 1 <= i <= es.len() implies #[trigger] hop(e, prev, es, i) by {
            assert(hop(e, prev, ds, i));
            assert(es.take(i) =~= ds.take(i));
            assert(es.take(i - 1) =~= ds.take(i - 1));
        }
        lemma_trace(e, prev, w.at, w.cost, es, left - 1);
        assert forall|i: int| 0 <= i < es.len() + 1 implies #[trigger] cells_along(e, es)[i]
            == v[i] by {
            assert(es.take(i) =~= ds.take(i));
        }
        assert(v =~= cells_along(e, es).push(Cell { x: n.x, y: n.y }));
    }
}

// ---------------------------------------------------------------- what the search notes
/// Whether an open entry is the start, or one step behind a way of fewer than `b` steps that is
/// noted.
spec fn entered(e: ArenaV, prev: Map<u64, Node>, it: Item, b: int) -> bool {
    ||| b == 0 && node_of(it) == start_of(e) && it.cost == 0
    ||| exists|c: int, ds: Seq<u8>| #[trigger]
        led(e, prev, before_it(it), c, ds) && ds.len() < b && it.d < 4 && e.step_cost(
            before_it(it),
            it.d,
        ) is Some && it.cost == c + e.step_cost(before_it(it), it.d)->0 && node_of(it)
            == node_after(before_it(it), it.d) && node_of(it) != start_of(e)
}

/// Whether all that is open is entered so, with `b` nodes settled.
spec fn noted(e: ArenaV, s: SearchV, b: int) -> bool {
    &&& forall|k: u64| #[trigger] s.prev.contains_key(k) <==> s.best.contains_key(k)
    &&& forall|i: int| 0 <= i < s.open.len() ==> entered(e, s.prev, #[trigger] s.open[i], b)
    &&& b > 0 ==> s.best.contains_key(key_of(e, start_of(e)))
    &&& b >= 0
}

/// The way to an entry that is settled next.
proof fn lemma_settled(e: ArenaV, s: SearchV, b: int) -> (ds: Seq<u8>)
    requires
        e.wf(),
        noted(e, s, b),
        s.open.len() > 0,
        !s.best.contains_key(key_of(e, node_of(s.open.last()))),
    ensures
        ({
            let it = s.open.last();
            let k = key_of(e, node_of(it));
            led(e, s.prev.insert(k, before_it(it)), node_of(it), it.cost as int, ds) && ds.len() <= b
        }),
{
    let it = s.open.last();
    let n = node_of(it);
    let k = key_of(e, n);
    let m = before_it(it);
    assert(entered(e, s.prev, s.open[s.open.len() - 1], b));
    if b == 0 && n == start_of(e) && it.cost == 0 {
        let ds = Seq::<u8>::empty();
        assert(way(e, ds) == Some(WayV { at: n, cost: 0 }));
        ds
    } else {
        let (c, ds) = choose|c: int, ds: Seq<u8>| #[trigger]
            led(e, s.prev, m, c, ds) && ds.len() < b && it.d < 4 && e.step_cost(m, it.d) is Some
                && it.cost == c + e.step_cost(m, it.d)->0 && n == node_after(m, it.d) && n
                != start_of(e);
        lemma_step(e, s.prev, m, c, ds, it.d, n, it.cost as int);
        ds.push(it.d)
    }
}

/// Entries stay entered as more is noted.
proof fn lemma_entered(e: ArenaV, prev: Map<u64, Node>, it: Item, b: int, k: u64, m: Node)
    requires
        entered(e, prev, it, b),
        !prev.contains_key(k),
        b > 0 || node_of(it) != start_of(e),
    ensures
        entered(e, prev.insert(k, m), it, b + 1),
{
    let (c, ds) = choose|c: int, ds: Seq<u8>| #[trigger]
        led(e, prev, before_it(it), c, ds) && ds.len() < b && it.d < 4 && e.step_cost(
            before_it(it),
            it.d,
        ) is Some && it.cost == c + e.step_cost(before_it(it), it.d)->0 && node_of(it)
            == node_after(before_it(it), it.d) && node_of(it) != start_of(e);
    lemma_stable(e, prev, before_it(it), c, ds, k, m);
}

#[verifier::spinoff_prover]
#[verifier::rlimit(40)]
proof fn lemma_opened(e: ArenaV, it: Item, d: int, s: SearchV, b: int, ds: Seq<u8>)
    requires
        e.wf(),
        0 <= d <= 4,
        noted(e, s, b),
        b > 0,
        led(e, s.prev, node_of(it), it.cost as int, ds),
        ds.len() < b,
        router::item_ok(e, it),
        !e.too_far(it.cost as int),
    ensures
        noted(e, expand(e, it, d, s), b),
    decreases 4 - d,
{
    router::lemma_window(e);
    if d < 4 {
        let nd = d as u8;
        let n = node_after(node_of(it), nd);
        match e.step_cost(node_of(it), nd) {
            Some(c) if !s.best.contains_key(e.key(it.x + router::dx(nd), it.y + router::dy(nd), nd)) => {
                let new = Item {
                    cost: (it.cost + c) as i64,
                    extra: (it.extra + e.step_extra(node_of(it), nd)) as i64,
                    x: n.x,
                    y: n.y,
                    d: nd,
                    pd: it.d,
                };
                let q = enqueue(s.open, new);
                let t = SearchV { open: q, best: s.best, prev: s.prev };
                let p = router::place(s.open, new, s.open.len() as int);
                router::lemma_placed(s.open, new, s.open.len() as int);
                assert(before_it(new) == node_of(it));
                assert(node_of(new) == n);
                assert(n != start_of(e)) by {
                    if n == start_of(e) {
                        assert(s.best.contains_key(key_of(e, start_of(e))));
                    }
                }
                assert(led(e, s.prev, before_it(new), it.cost as int, ds));
                assert(entered(e, s.prev, new, b));
                assert forall|i: int| 0 <= i < q.len() implies entered(
                    e,
                    s.prev,
                    #[trigger] q[i],
                    b,
                ) by {
                    if i < p {
                        assert(q[i] == s.open[i]);
                    } else if i > p {
                        assert(q[i] == s.open[i - 1]);
                    } else {
                        assert(q[i] == new);
                    }
                }
                lemma_opened(e, it, d + 1, t, b, ds);
            },
            _ => {
                lemma_opened(e, it, d + 1, s, b, ds);
            },
        }
    }
}

/// Whether a way leads to a node that ends the search, at a cost that no way to an end undercuts
/// which the search goes to the end of, and the notes lead back along it.
pub open spec fn cheapest_way(e: ArenaV, k: Node, prev: Map<u64, Node>, ds: Seq<u8>) -> bool {
    &&& way(e, ds) is Some
    &&& way(e, ds)->0.at == k
    &&& e.ends_at(k)
    &&& trace(e, prev, k, e.size()) == cells_along(e, ds)
    &&& forall|es: Seq<u8>|
        (#[trigger] way(e, es)) is Some && e.ends_at(way(e, es)->0.at) && !e.too_far(
            way(e, es)->0.cost,
        ) ==> way(e, ds)->0.cost <= way(e, es)->0.cost
}

#[verifier::spinoff_prover]
#[verifier::rlimit(60)]
proof fn lemma_found(e: ArenaV, s: SearchV, left: int) -> (ds: Seq<u8>)
    requires
        e.wf(),
        sound(e, s),
        noted(e, s, e.size() - left),
        0 <= left <= e.size(),
        left == e.size() ==> s.open.len() == 1 && s.best.dom() == Set::<u64>::empty(),
    ensures
        match search(e, s, left).0 {
            Some(k) => cheapest_way(e, k, search(e, s, left).1, ds),
            None => true,
        },
    decreases left, s.open.len(),
{
    let b = e.size() - left;
    if s.open.len() == 0 {
        Seq::empty()
    } else {
        let it = s.open.last();
        assert(router::item_ok(e, it));
        let n = node_of(it);
        let k = e.key(it.x as int, it.y as int, it.d);
        let rest = SearchV { open: s.open.drop_last(), ..s };
        if s.best.contains_key(k) {
            assert(s.best.dom().contains(k));
            router::lemma_rest(e, s);
            assert forall|i: int| 0 <= i < rest.open.len() implies entered(
                e,
                rest.prev,
                #[trigger] rest.open[i],
                b,
            ) by {
                assert(rest.open[i] == s.open[i]);
            }
            lemma_found(e, rest, left)
        } else if left <= 0 {
            Seq::empty()
        } else {
            let done = SearchV {
                open: rest.open,
                best: rest.best.insert(k, it.cost),
                prev: rest.prev.insert(k, before_it(it)),
            };
            let ds = lemma_settled(e, s, b);
            if e.ends_at(n) {
                lemma_trace(e, done.prev, n, it.cost as int, ds, e.size());
                assert forall|es: Seq<u8>|
                    (#[trigger] way(e, es)) is Some && e.ends_at(way(e, es)->0.at) && !e.too_far(
                        way(e, es)->0.cost,
                    ) implies it.cost <= way(e, es)->0.cost by {
                    if way(e, es)->0.cost < it.cost {
                        router::lemma_cheap_ways(e, s, es, it.cost as int);
                        router::lemma_way(e, es);
                        assert(router::settled(e, s, way(e, es)->0.at));
                    }
                }
                ds
            } else {
                router::lemma_settle(e, s);
                assert forall|i: int| 0 <= i < done.open.len() implies entered(
                    e,
                    done.prev,
                    #[trigger] done.open[i],
                    b + 1,
                ) by {
                    assert(done.open[i] == s.open[i]);
                    assert(entered(e, s.prev, s.open[i], b));
                    lemma_entered(e, s.prev, s.open[i], b, k, before_it(it));
                }
                assert(done.best.contains_key(key_of(e, start_of(e)))) by {
                    if b == 0 {
                        assert(entered(e, s.prev, s.open[s.open.len() - 1], b));
                        assert(n == start_of(e));
                    }
                }
                assert(noted(e, done, b + 1));
                if e.too_far(it.cost as int) {
                    lemma_found(e, done, left - 1)
                } else {
                    lemma_opened(e, it, 0, done, b + 1, ds);
                    lemma_found(e, expand(e, it, 0, done), left - 1)
                }
            }
        }
    }
}

/// The path of the wire that is found.
pub open spec fn found_path(e: ArenaV, simple_only: bool) -> Seq<Pt> {
    let (p, j) = found_wire(e, simple_only)->0;
    p
}

/// The wire that is found runs along a way to an end whose length, with five for each bend and ten
/// for each crossing, no other way to an end undercuts that the search goes to the end of.
#[verifier::rlimit(40)]
pub proof fn the_wire_found_is_a_cheapest_way(e: ArenaV) -> (ds: Seq<u8>)
    requires
        e.wf(),
    ensures
        forall|simple_only: bool| #[trigger]
            found_wire(e, simple_only) is Some ==> {
                &&& way(e, ds) is Some
                &&& e.ends_at(way(e, ds)->0.at)
                &&& found_path(e, simple_only) == cells_to_path(
                    compressed(cells_along(e, ds)),
                )
                &&& forall|es: Seq<u8>|
                    (#[trigger] way(e, es)) is Some && e.ends_at(way(e, es)->0.at) && !e.too_far(
                        way(e, es)->0.cost,
                    ) ==> ds.len() + 5 * bends(e, ds) + 10 * crossed(e, ds) <= es.len() + 5 * bends(
                        e,
                        es,
                    ) + 10 * crossed(e, es)
            },
{
    let s = start_state(e);
    router::lemma_window(e);
    assert(way(e, Seq::empty()) == Some(WayV { at: start_of(e), cost: 0 }));
    let it = s.open[0];
    assert(node_of(it) == start_of(e));
    assert(router::reached(e, node_of(it), it.cost as int));
    assert(sound(e, s)) by {
        router::lemma_start_sound(e);
    }
    assert(noted(e, s, 0));
    assert(s.best.dom() =~= Set::<u64>::empty());
    router::lemma_size(e);
    let ds = lemma_found(e, s, e.size());
    if let Some(k) = search(e, s, e.size()).0 {
        ways_cost_length_bends_and_crossings(e, ds);
        assert forall|es: Seq<u8>|
            (#[trigger] way(e, es)) is Some && e.ends_at(way(e, es)->0.at) && !e.too_far(
                way(e, es)->0.cost,
            ) implies ds.len() + 5 * bends(e, ds) + 10 * crossed(e, ds) <= es.len() + 5 * bends(
            e,
            es,
        ) + 10 * crossed(e, es) by {
            ways_cost_length_bends_and_crossings(e, es);
        }
    }
    ds
}

} // verus!
