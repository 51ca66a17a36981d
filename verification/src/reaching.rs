//! What the wires of a design are said to touch: what stands at their ends, each once and in
//! order.
use crate::annotate;
use crate::annotate::PairsV;
use crate::compile::Key;
use crate::json;
use crate::json::JsonV;
use crate::model_json;
use crate::model_json::list_at;
use crate::names;
use crate::order_map;
use crate::order_map::{look, OrderMap};
use crate::pinref;
use crate::symlib::{SymbolIndex, SymbolInfo};
use std::sync::Arc;
use vstd::prelude::*;

verus! {

/// Whether names are in order, each once.
pub open spec fn set_of_names(s: Seq<Seq<char>>) -> bool {
    names::in_order(s) && s.no_duplicates()
}

proof fn lemma_set_add(s: Seq<Seq<char>>, x: Seq<char>)
    requires
        set_of_names(s),
    ensures
        set_of_names(names::set_add(s, x)),
{
    if !s.contains(x) {
        names::lemma_add_in_order(s, x);
        names::lemma_spot(s, x, 0);
        let k = names::spot(s, x, 0);
        let t = names::sorted_add(s, x);
        assert forall|i: int, j: int| 0 <= i < t.len() && 0 <= j < t.len() && i != j implies t[i]
            != t[j] by {
            let p = if i < k { i } else { i - 1 };
            let q = if j < k { j } else { j - 1 };
            if i != k {
                assert(t[i] == s[p]);
            }
            if j != k {
                assert(t[j] == s[q]);
            }
        }
    }
}

/// Whether one of the first `n` names at a point is this one, and is not left out.
spec fn among(v: PairsV, k: Key, but: Option<Seq<char>>, n: int, t: Seq<char>) -> bool {
    exists|i: int| 0 <= i < n && #[trigger] v[i] == (k, t) && but != Some(t)
}

proof fn lemma_with(s: Seq<Seq<char>>, v: PairsV, k: Key, but: Option<Seq<char>>, n: int)
    requires
        set_of_names(s),
        0 <= n <= v.len(),
    ensures
        set_of_names(annotate::with_names(s, v, k, but, n)),
        forall|t: Seq<char>| #[trigger]
            annotate::with_names(s, v, k, but, n).contains(t) <==> s.contains(t) || among(
                v,
                k,
                but,
                n,
                t,
            ),
    decreases n,
{
    if n > 0 {
        lemma_with(s, v, k, but, n - 1);
        let a = annotate::with_names(s, v, k, but, n - 1);
        let b = annotate::with_names(s, v, k, but, n);
        let (q, x) = v[n - 1];
        lemma_set_add(a, x);
        assert forall|t: Seq<char>| #[trigger] b.contains(t) <==> s.contains(t) || among(
            v,
            k,
            but,
            n,
            t,
        ) by {
            names::lemma_add_contains(a, x, t);
            assert(a.contains(t) <==> s.contains(t) || among(v, k, but, n - 1, t));
            if among(v, k, but, n - 1, t) {
                let i = choose|i: int| 0 <= i < n - 1 && #[trigger] v[i] == (k, t) && but != Some(t);
                assert(0 <= i < n && v[i] == (k, t));
            }
            if among(v, k, but, n, t) {
                let i = choose|i: int| 0 <= i < n && #[trigger] v[i] == (k, t) && but != Some(t);
                if i < n - 1 {
                    assert(among(v, k, but, n - 1, t));
                }
            }
            if q == k && x == t && but != Some(t) {
                assert(v[n - 1] == (k, t));
            }
        }
    }
}

/// Whether a name stands at a point.
pub open spec fn stands_at(v: PairsV, k: Key, t: Seq<char>) -> bool {
    exists|i: int| 0 <= i < v.len() && #[trigger] v[i] == (k, t)
}

/// Whether a name is touched at end `q`.
spec fn at_end(at: PairsV, ends: PairsV, keys: Seq<Key>, id: Seq<char>, q: int, t: Seq<char>) -> bool {
    stands_at(at, keys[q], t) || stands_at(ends, keys[q], t) && t != id
}

#[verifier::spinoff_prover]
#[verifier::rlimit(40)]
proof fn lemma_touched(at: PairsV, ends: PairsV, keys: Seq<Key>, id: Seq<char>, n: int)
    requires
        0 <= n <= keys.len(),
    ensures
        set_of_names(annotate::touched(at, ends, keys, id, n)),
        forall|t: Seq<char>| #[trigger]
            annotate::touched(at, ends, keys, id, n).contains(t) <==> exists|q: int|
                0 <= q < n && #[trigger] at_end(at, ends, keys, id, q, t),
    decreases n,
{
    if n > 0 {
        lemma_touched(at, ends, keys, id, n - 1);
        let a = annotate::touched(at, ends, keys, id, n - 1);
        let b = annotate::with_names(a, at, keys[n - 1], None, at.len() as int);
        let c = annotate::touched(at, ends, keys, id, n);
        lemma_with(a, at, keys[n - 1], None, at.len() as int);
        lemma_with(b, ends, keys[n - 1], Some(id), ends.len() as int);
        assert forall|t: Seq<char>| #[trigger] c.contains(t) <==> exists|q: int|
            0 <= q < n && #[trigger] at_end(at, ends, keys, id, q, t) by {
            let k = keys[n - 1];
            assert(c.contains(t) <==> b.contains(t) || among(
                ends,
                k,
                Some(id),
                ends.len() as int,
                t,
            ));
            assert(b.contains(t) <==> a.contains(t) || among(at, k, None, at.len() as int, t));
            assert(among(at, k, None, at.len() as int, t) <==> stands_at(at, k, t)) by {
                if stands_at(at, k, t) {
                    let i = choose|i: int| 0 <= i < at.len() && #[trigger] at[i] == (k, t);
                    assert(0 <= i < at.len() && at[i] == (k, t));
                }
            }
            assert(among(ends, k, Some(id), ends.len() as int, t) <==> stands_at(ends, k, t) && t
                != id) by {
                if stands_at(ends, k, t) && t != id {
                    let i = choose|i: int| 0 <= i < ends.len() && #[trigger] ends[i] == (k, t);
                    assert(0 <= i < ends.len() && ends[i] == (k, t));
                }
            }
            assert(a.contains(t) <==> exists|q: int|
                0 <= q < n - 1 && #[trigger] at_end(at, ends, keys, id, q, t));
            if exists|q: int| 0 <= q < n - 1 && #[trigger] at_end(at, ends, keys, id, q, t) {
                let q = choose|q: int| 0 <= q < n - 1 && #[trigger] at_end(at, ends, keys, id, q, t);
                assert(0 <= q < n && at_end(at, ends, keys, id, q, t));
            }
            if exists|q: int| 0 <= q < n && #[trigger] at_end(at, ends, keys, id, q, t) {
                let q = choose|q: int| 0 <= q < n && #[trigger] at_end(at, ends, keys, id, q, t);
                if q < n - 1 {
                    assert(0 <= q < n - 1 && at_end(at, ends, keys, id, q, t));
                }
            }
            assert(at_end(at, ends, keys, id, n - 1, t) <==> stands_at(at, k, t) || stands_at(
                ends,
                k,
                t,
            ) && t != id);
        }
    }
}

// ---------------------------------------------------------------- what stands at points
/// The first pin of a part at a point has this name.
pub open spec fn pin_named(m: pinref::SpotsV, j: int, k: Key) -> bool {
    &&& 0 <= j < m.len()
    &&& annotate::spot_key(m[j].1) == k
    &&& forall|i: int| 0 <= i < j ==> annotate::spot_key((#[trigger] m[i]).1) != k
}

#[verifier::spinoff_prover]
#[verifier::rlimit(40)]
proof fn lemma_spots(r: Seq<char>, m: pinref::SpotsV, n: int, k: Key, t: Seq<char>)
    requires
        0 <= n <= m.len(),
    ensures
        annotate::has_key(annotate::spot_pairs(r, m, n), k) <==> exists|j: int|
            0 <= j < n && annotate::spot_key((#[trigger] m[j]).1) == k,
        stands_at(annotate::spot_pairs(r, m, n), k, t) <==> exists|j: int|
            j < n && #[trigger] pin_named(m, j, k) && t == r + "."@ + m[j].0,
    decreases n,
{
    if n > 0 {
        lemma_spots(r, m, n - 1, k, t);
        let a = annotate::spot_pairs(r, m, n - 1);
        let b = annotate::spot_pairs(r, m, n);
        let q = annotate::spot_key(m[n - 1].1);
        let x = r + "."@ + m[n - 1].0;
        lemma_spots(r, m, n - 1, q, t);
        if annotate::has_key(a, k) {
            let i = choose|i: int| 0 <= i < a.len() && (#[trigger] a[i]).0 == k;
            assert(b[i].0 == k);
            let j = choose|j: int| 0 <= j < n - 1 && annotate::spot_key((#[trigger] m[j]).1) == k;
            assert(annotate::spot_key(m[j].1) == k);
        }
        if q == k {
            if !annotate::has_key(a, q) {
                assert(b[a.len() as int].0 == k);
            }
            assert(annotate::spot_key(m[n - 1].1) == k);
        }
        if annotate::has_key(b, k) && !annotate::has_key(a, k) {
            let i = choose|i: int| 0 <= i < b.len() && (#[trigger] b[i]).0 == k;
            if i < a.len() {
                assert(a[i].0 == k);
            }
            assert(q == k);
        }
        if exists|j: int| 0 <= j < n && annotate::spot_key((#[trigger] m[j]).1) == k {
            let j = choose|j: int| 0 <= j < n && annotate::spot_key((#[trigger] m[j]).1) == k;
            if j < n - 1 {
                assert(annotate::spot_key(m[j].1) == k);
            }
        }
        if stands_at(a, k, t) {
            let i = choose|i: int| 0 <= i < a.len() && #[trigger] a[i] == (k, t);
            assert(b[i] == (k, t));
            let j = choose|j: int|
                j < n - 1 && #[trigger] pin_named(m, j, k) && t == r + "."@ + m[j].0;
            assert(j < n && pin_named(m, j, k));
        }
        if stands_at(b, k, t) && !stands_at(a, k, t) {
            let i = choose|i: int| 0 <= i < b.len() && #[trigger] b[i] == (k, t);
            if i < a.len() {
                assert(a[i] == (k, t));
            }
            assert(q == k && t == x);
            assert forall|e: int| 0 <= e < n - 1 implies annotate::spot_key((#[trigger] m[e]).1)
                != k by {
                if annotate::spot_key(m[e].1) == k {
                    assert(annotate::has_key(a, q));
                }
            }
            assert(n - 1 < n && pin_named(m, n - 1, k));
        }
        if exists|j: int| j < n && #[trigger] pin_named(m, j, k) && t == r + "."@ + m[j].0 {
            let j = choose|j: int| j < n && #[trigger] pin_named(m, j, k) && t == r + "."@ + m[j].0;
            if j < n - 1 {
                assert(j < n - 1 && pin_named(m, j, k));
            } else {
                if annotate::has_key(a, q) {
                    let e = choose|e: int|
                        0 <= e < n - 1 && annotate::spot_key((#[trigger] m[e]).1) == q;
                    assert(annotate::spot_key(m[e].1) != k);
                }
                assert(b == a.push((q, x)));
                assert(b[a.len() as int] == (k, t));
            }
        }
    }
}

/// Whether a part of a table has a pin at a point, the first of them written so.
pub open spec fn pin_there(table: pinref::TableV, p: int, j: int, k: Key, t: Seq<char>) -> bool {
    &&& 0 <= p < table.len()
    &&& pin_named(table[p].1, j, k)
    &&& t == table[p].0 + "."@ + table[p].1[j].0
}

proof fn lemma_joined(a: PairsV, b: PairsV, k: Key, t: Seq<char>)
    ensures
        stands_at(a + b, k, t) <==> stands_at(a, k, t) || stands_at(b, k, t),
{
    if stands_at(a, k, t) {
        let i = choose|i: int| 0 <= i < a.len() && #[trigger] a[i] == (k, t);
        assert((a + b)[i] == (k, t));
    }
    if stands_at(b, k, t) {
        let i = choose|i: int| 0 <= i < b.len() && #[trigger] b[i] == (k, t);
        assert((a + b)[a.len() + i] == (k, t));
    }
    if stands_at(a + b, k, t) {
        let i = choose|i: int| 0 <= i < (a + b).len() && #[trigger] (a + b)[i] == (k, t);
        if i < a.len() {
            assert(a[i] == (k, t));
        } else {
            assert(b[i - a.len()] == (k, t));
        }
    }
}

proof fn lemma_table(table: pinref::TableV, n: int, k: Key, t: Seq<char>)
    requires
        0 <= n <= table.len(),
    ensures
        stands_at(annotate::table_pairs(table, n), k, t) <==> exists|p: int, j: int|
            p < n && #[trigger] pin_there(table, p, j, k, t),
    decreases n,
{
    if n > 0 {
        lemma_table(table, n - 1, k, t);
        let a = annotate::table_pairs(table, n - 1);
        let (r, m) = table[n - 1];
        let b = annotate::spot_pairs(r, m, m.len() as int);
        lemma_joined(a, b, k, t);
        lemma_spots(r, m, m.len() as int, k, t);
        if stands_at(a, k, t) {
            let (p, j) = choose|p: int, j: int|
                p < n - 1 && #[trigger] pin_there(table, p, j, k, t);
            assert(p < n && pin_there(table, p, j, k, t));
        }
        if stands_at(b, k, t) {
            let j = choose|j: int|
                j < m.len() && #[trigger] pin_named(m, j, k) && t == r + "."@ + m[j].0;
            assert(n - 1 < n && pin_there(table, n - 1, j, k, t));
        }
        if exists|p: int, j: int| p < n && #[trigger] pin_there(table, p, j, k, t) {
            let (p, j) = choose|p: int, j: int| p < n && #[trigger] pin_there(table, p, j, k, t);
            if p < n - 1 {
                assert(p < n - 1 && pin_there(table, p, j, k, t));
            } else {
                assert(j < m.len() && pin_named(m, j, k));
            }
        }
    }
}

/// Whether item `i` of a list stands at a point and is written so.
pub open spec fn item_there(
    v: Seq<JsonV>,
    i: int,
    lead: Seq<char>,
    f: Seq<char>,
    k: Key,
    t: Seq<char>,
) -> bool {
    &&& 0 <= i < v.len()
    &&& annotate::list_key(list_at(json::entries_of(v[i]), "at"@)) == k
    &&& t == lead + pinref::text_field(v[i], f)
}

proof fn lemma_items(v: Seq<JsonV>, lead: Seq<char>, f: Seq<char>, k: Key, t: Seq<char>)
    ensures
        stands_at(annotate::item_pairs(v, lead, f), k, t) <==> exists|i: int| #[trigger]
            item_there(v, i, lead, f, k, t),
{
    let p = annotate::item_pairs(v, lead, f);
    if stands_at(p, k, t) {
        let i = choose|i: int| 0 <= i < p.len() && #[trigger] p[i] == (k, t);
        assert(item_there(v, i, lead, f, k, t));
    }
    if exists|i: int| #[trigger] item_there(v, i, lead, f, k, t) {
        let i = choose|i: int| #[trigger] item_there(v, i, lead, f, k, t);
        assert(p[i] == (k, t));
    }
}

/// Whether end `q` of wire `i` is at a point, and the wire has this identifier.
pub open spec fn wire_there(v: Seq<JsonV>, i: int, q: int, k: Key, t: Seq<char>) -> bool {
    &&& 0 <= i < v.len()
    &&& v[i] is Obj
    &&& 0 <= q < annotate::path_ends(v[i]).len()
    &&& annotate::path_ends(v[i])[q] == k
    &&& t == pinref::text_field(v[i], "id"@)
}

proof fn lemma_ends(v: Seq<JsonV>, n: int, k: Key, t: Seq<char>)
    requires
        0 <= n <= v.len(),
    ensures
        stands_at(annotate::end_pairs(v, n), k, t) <==> exists|i: int, q: int|
            i < n && #[trigger] wire_there(v, i, q, k, t),
    decreases n,
{
    if n > 0 {
        lemma_ends(v, n - 1, k, t);
        let a = annotate::end_pairs(v, n - 1);
        let w = v[n - 1];
        let b = Seq::new(
            annotate::path_ends(w).len(),
            |i: int| (annotate::path_ends(w)[i], pinref::text_field(w, "id"@)),
        );
        lemma_joined(a, b, k, t);
        if stands_at(a, k, t) {
            let (i, q) = choose|i: int, q: int| i < n - 1 && #[trigger] wire_there(v, i, q, k, t);
            assert(i < n && wire_there(v, i, q, k, t));
        }
        if w is Obj && stands_at(b, k, t) {
            let q = choose|q: int| 0 <= q < b.len() && #[trigger] b[q] == (k, t);
            assert(n - 1 < n && wire_there(v, n - 1, q, k, t));
        }
        if exists|i: int, q: int| i < n && #[trigger] wire_there(v, i, q, k, t) {
            let (i, q) = choose|i: int, q: int| i < n && #[trigger] wire_there(v, i, q, k, t);
            if i < n - 1 {
                assert(i < n - 1 && wire_there(v, i, q, k, t));
            } else {
                assert(b[q] == (k, t));
            }
        }
    }
}

/// What stands at a point: pins of parts, labels, power symbols.
pub open spec fn thing_there(
    d: Seq<(Seq<char>, JsonV)>,
    table: pinref::TableV,
    k: Key,
    t: Seq<char>,
) -> bool {
    ||| exists|p: int, j: int| #[trigger] pin_there(table, p, j, k, t)
    ||| exists|i: int| #[trigger] item_there(list_at(d, "labels"@), i, "label:"@, "text"@, k, t)
    ||| exists|i: int| #[trigger] item_there(list_at(d, "power"@), i, "power:"@, "net"@, k, t)
}

/// Whether a wire touches something: it stands at one of its ends, or another wire ends there.
pub open spec fn touches(
    d: Seq<(Seq<char>, JsonV)>,
    table: pinref::TableV,
    w: JsonV,
    t: Seq<char>,
) -> bool {
    exists|q: int|
        0 <= q < annotate::path_ends(w).len() && touches_at(
            d,
            table,
            w,
            #[trigger] annotate::path_ends(w)[q],
            t,
        )
}

pub open spec fn touches_at(
    d: Seq<(Seq<char>, JsonV)>,
    table: pinref::TableV,
    w: JsonV,
    k: Key,
    t: Seq<char>,
) -> bool {
    thing_there(d, table, k, t) || (t != pinref::text_field(w, "id"@) && exists|i: int, q: int|
        #[trigger] wire_there(list_at(d, "wires"@), i, q, k, t))
}

/// The design with what its wires touch.
pub open spec fn said_wires(
    j: JsonV,
    index: SymbolIndex,
    own: OrderMap<Arc<SymbolInfo>>,
) -> Seq<JsonV> {
    list_at(json::entries_of(annotate::annotated_design(j, index, own)), "wires"@)
}

proof fn lemma_thing(d: Seq<(Seq<char>, JsonV)>, table: pinref::TableV, k: Key, t: Seq<char>)
    ensures
        stands_at(annotate::design_pairs(d, table), k, t) <==> thing_there(d, table, k, t),
{
    let a = annotate::table_pairs(table, table.len() as int);
    let b = annotate::item_pairs(list_at(d, "labels"@), "label:"@, "text"@);
    let c = annotate::item_pairs(list_at(d, "power"@), "power:"@, "net"@);
    lemma_joined(a, b, k, t);
    lemma_joined(a + b, c, k, t);
    lemma_table(table, table.len() as int, k, t);
    lemma_items(list_at(d, "labels"@), "label:"@, "text"@, k, t);
    lemma_items(list_at(d, "power"@), "power:"@, "net"@, k, t);
    if exists|p: int, j: int| #[trigger] pin_there(table, p, j, k, t) {
        let (p, j) = choose|p: int, j: int| #[trigger] pin_there(table, p, j, k, t);
        assert(p < table.len() && pin_there(table, p, j, k, t));
    }
}

/// Each wire of a design is given the names of what it touches at its ends, in order and each
/// once: pins, labels, power symbols and other wires. Its other fields stay, and so does the rest
/// of the design.
#[verifier::spinoff_prover]
#[verifier::rlimit(40)]
pub proof fn a_wire_lists_what_it_touches(
    j: JsonV,
    index: SymbolIndex,
    own: OrderMap<Arc<SymbolInfo>>,
    i: int,
)
    requires
        0 <= i < list_at(json::entries_of(j), "wires"@).len(),
    ensures
        ({
            let d = json::entries_of(j);
            let r = json::entries_of(annotate::annotated_design(j, index, own));
            let w = list_at(d, "wires"@)[i];
            let y = said_wires(j, index, own)[i];
            let table = annotate::resolved_table(j, index, own);
            &&& said_wires(j, index, own).len() == list_at(d, "wires"@).len()
            &&& forall|q: Seq<char>| q != "wires"@ ==> #[trigger] look(r, q) == look(d, q)
            &&& !(w is Obj) ==> y == w
            &&& w is Obj ==> forall|q: Seq<char>|
                q != "touches"@ ==> #[trigger] json::field(y, q) == json::field(w, q)
            &&& w is Obj ==> exists|s: Seq<Seq<char>>|
                set_of_names(s) && json::field(y, "touches"@) == Some(
                    JsonV::Arr(#[trigger] model_json::text_items(s)),
                ) && forall|t: Seq<char>| #[trigger] s.contains(t) <==> touches(d, table, w, t)
        }),
{
    let d = json::entries_of(j);
    let wires = list_at(d, "wires"@);
    let table = annotate::resolved_table(j, index, own);
    let at = annotate::design_pairs(d, table);
    let ends = annotate::end_pairs(wires, wires.len() as int);
    let all = Seq::new(wires.len(), |i: int| annotate::annotated(at, ends, wires[i]));
    order_map::put_then_look(d, "wires"@, JsonV::Arr(all));
    assert(said_wires(j, index, own) == all);
    let w = wires[i];
    let y = annotate::annotated(at, ends, w);
    if w is Obj {
        let keys = annotate::path_ends(w);
        let id = pinref::text_field(w, "id"@);
        let s = annotate::touched(at, ends, keys, id, keys.len() as int);
        lemma_touched(at, ends, keys, id, keys.len() as int);
        order_map::put_then_look(
            json::entries_of(w),
            "touches"@,
            JsonV::Arr(model_json::text_items(s)),
        );
        assert forall|t: Seq<char>| #[trigger] s.contains(t) <==> touches(d, table, w, t) by {
            assert forall|q: int| 0 <= q < keys.len() implies #[trigger] at_end(
                at,
                ends,
                keys,
                id,
                q,
                t,
            ) == touches_at(d, table, w, keys[q], t) by {
                lemma_thing(d, table, keys[q], t);
                lemma_ends(wires, wires.len() as int, keys[q], t);
                if exists|i: int, e: int| #[trigger] wire_there(wires, i, e, keys[q], t) {
                    let (i, e) = choose|i: int, e: int| #[trigger] wire_there(wires, i, e, keys[q], t);
                    assert(i < wires.len() && wire_there(wires, i, e, keys[q], t));
                }
            }
            if s.contains(t) {
                let q = choose|q: int|
                    0 <= q < keys.len() && #[trigger] at_end(at, ends, keys, id, q, t);
                assert(touches_at(d, table, w, annotate::path_ends(w)[q], t));
            }
            if touches(d, table, w, t) {
                let q = choose|q: int|
                    0 <= q < keys.len() && touches_at(
                        d,
                        table,
                        w,
                        #[trigger] annotate::path_ends(w)[q],
                        t,
                    );
                assert(at_end(at, ends, keys, id, q, t));
            }
        }
        assert(json::field(y, "touches"@) == Some(JsonV::Arr(model_json::text_items(s))));
    }
}

} // verus!
