//! What each wire of a design touches.
use crate::compile;
use crate::compile::Key;
use crate::extract;
use crate::extract::to_units;
use crate::geom::Pt;
use crate::json;
use crate::json::{dup_entries, put_entry, Json, JsonV};
use crate::model_json;
use crate::model_json::{list_json, list_of, normal_entries, number_item, object_of, texts_json, Fields};
use crate::names;
use crate::names::add_distinct;
use crate::order_map;
use crate::order_map::OrderMap;
use crate::pinref;
use crate::pinref::{list_in, pin_lookup_table, resolve_with, PinSpot, POINT_MAX};
use crate::symlib::{SymbolIndex, SymbolInfo};
use crate::text;
use crate::text::{same, Line};
use std::sync::Arc;
use vstd::prelude::*;

verus! {

/// Names at points.
pub type PairsV = Seq<(Key, Seq<char>)>;

/// A point in thousandths of a grid step, rounded to hundredths.
pub open spec fn spot_key(p: PinSpot) -> Key {
    compile::key_spec(Pt { x: (p.x * 100) as i64, y: (p.y * 100) as i64 })
}

pub open spec fn has_key(v: PairsV, k: Key) -> bool {
    exists|i: int| 0 <= i < v.len() && (#[trigger] v[i]).0 == k
}

/// The pins of a part: the first number or name at each point.
pub open spec fn spot_pairs(r: Seq<char>, m: pinref::SpotsV, n: int) -> PairsV
    decreases n,
{
    if n <= 0 {
        Seq::empty()
    } else {
        let v = spot_pairs(r, m, n - 1);
        let k = spot_key(m[n - 1].1);
        if has_key(v, k) {
            v
        } else {
            v.push((k, r + "."@ + m[n - 1].0))
        }
    }
}

pub open spec fn table_pairs(t: pinref::TableV, n: int) -> PairsV
    decreases n,
{
    if n <= 0 {
        Seq::empty()
    } else {
        table_pairs(t, n - 1) + spot_pairs(t[n - 1].0, t[n - 1].1, t[n - 1].1.len() as int)
    }
}

/// The point of a list of two numbers in grid steps.
pub open spec fn list_key(v: Seq<JsonV>) -> Key {
    compile::key_spec(
        Pt {
            x: extract::units_of(model_json::num_item(v, 0)) as i64,
            y: extract::units_of(model_json::num_item(v, 1)) as i64,
        },
    )
}

pub open spec fn item_pair(it: JsonV, lead: Seq<char>, k: Seq<char>) -> (Key, Seq<char>) {
    (
        list_key(model_json::list_at(json::entries_of(it), "at"@)),
        lead + pinref::text_field(it, k),
    )
}

pub open spec fn item_pairs(v: Seq<JsonV>, lead: Seq<char>, k: Seq<char>) -> PairsV {
    Seq::new(v.len(), |i: int| item_pair(v[i], lead, k))
}

/// The ends of a wire's path: its first and its last point.
pub open spec fn path_ends(w: JsonV) -> Seq<Key> {
    let v = model_json::list_at(json::entries_of(w), "pts"@);
    if v.len() == 0 {
        Seq::empty()
    } else {
        seq![list_key(json::items_of(v[0])), list_key(json::items_of(v.last()))]
    }
}

pub open spec fn end_pairs(v: Seq<JsonV>, n: int) -> PairsV
    decreases n,
{
    if n <= 0 {
        Seq::empty()
    } else if v[n - 1] is Obj {
        let w = v[n - 1];
        end_pairs(v, n - 1) + Seq::new(
            path_ends(w).len(),
            |i: int| (path_ends(w)[i], pinref::text_field(w, "id"@)),
        )
    } else {
        end_pairs(v, n - 1)
    }
}

/// A set with the names among the first `n` pairs that stand at a point, but for one.
pub open spec fn with_names(
    s: Seq<Seq<char>>,
    v: PairsV,
    k: Key,
    but: Option<Seq<char>>,
    n: int,
) -> Seq<Seq<char>>
    decreases n,
{
    if n <= 0 {
        s
    } else {
        let t = with_names(s, v, k, but, n - 1);
        if v[n - 1].0 == k && but != Some(v[n - 1].1) {
            names::set_add(t, v[n - 1].1)
        } else {
            t
        }
    }
}

/// What stands at the first `n` ends: pins, labels and power symbols, and other wires.
pub open spec fn touched(
    at: PairsV,
    ends: PairsV,
    keys: Seq<Key>,
    id: Seq<char>,
    n: int,
) -> Seq<Seq<char>>
    decreases n,
{
    if n <= 0 {
        Seq::empty()
    } else {
        let s = with_names(
            touched(at, ends, keys, id, n - 1),
            at,
            keys[n - 1],
            None,
            at.len() as int,
        );
        with_names(s, ends, keys[n - 1], Some(id), ends.len() as int)
    }
}

/// A tagged wire with what it touches.
pub open spec fn annotated(at: PairsV, ends: PairsV, w: JsonV) -> JsonV {
    if w is Obj {
        let keys = path_ends(w);
        JsonV::Obj(
            order_map::put(
                json::entries_of(w),
                "touches"@,
                JsonV::Arr(
                    model_json::text_items(
                        touched(at, ends, keys, pinref::text_field(w, "id"@), keys.len() as int),
                    ),
                ),
            ),
        )
    } else {
        w
    }
}

/// Names of pins, labels and power symbols with their points.
pub open spec fn design_pairs(d: Seq<(Seq<char>, JsonV)>, t: pinref::TableV) -> PairsV {
    table_pairs(t, t.len() as int) + item_pairs(
        model_json::list_at(d, "labels"@),
        "label:"@,
        "text"@,
    ) + item_pairs(model_json::list_at(d, "power"@), "power:"@, "net"@)
}

/// The pins of a design after its references have been resolved.
pub open spec fn resolved_table(
    j: JsonV,
    index: SymbolIndex,
    own: OrderMap<Arc<SymbolInfo>>,
) -> pinref::TableV {
    let d = model_json::normalized(j);
    let r = pinref::resolved_refs(d, pinref::design_table(d, index, own));
    pinref::design_table(r.d, index, own)
}

/// A design whose tagged wires say what they touch.
pub open spec fn annotated_design(
    j: JsonV,
    index: SymbolIndex,
    own: OrderMap<Arc<SymbolInfo>>,
) -> JsonV {
    let d = json::entries_of(j);
    let at = design_pairs(d, resolved_table(j, index, own));
    let wires = model_json::list_at(d, "wires"@);
    let ends = end_pairs(wires, wires.len() as int);
    JsonV::Obj(
        order_map::put(
            d,
            "wires"@,
            JsonV::Arr(Seq::new(wires.len(), |i: int| annotated(at, ends, wires[i]))),
        ),
    )
}

/// Tagged wires have an identifier and a path.
pub open spec fn wires_tagged(d: Seq<(Seq<char>, JsonV)>) -> bool {
    forall|i: int|
        0 <= i < model_json::list_at(d, "wires"@).len() ==> {
            let w = #[trigger] model_json::list_at(d, "wires"@)[i];
            w is Obj ==> json::field(w, "id"@) is Some && json::field(w, "pts"@) is Some
        }
}

pub open spec fn pairs_v(v: Seq<(Key, String)>) -> PairsV {
    Seq::new(v.len(), |i: int| (v[i].0, v[i].1@))
}

fn grid_key(v: &Vec<Json>) -> (k: Key)
    requires
        json::all_ok(json::values_v(v@)),
    ensures
        k == list_key(json::values_v(v@)),
{
    Key::of(Pt { x: to_units(number_item(v, 0)), y: to_units(number_item(v, 1)) })
}

fn knows_key(v: &Vec<(Key, String)>, from: usize, k: Key) -> (r: bool)
    requires
        from <= v@.len(),
    ensures
        r == has_key(pairs_v(v@).skip(from as int), k),
{
    let ghost pv = pairs_v(v@).skip(from as int);
    let mut i: usize = from;
    while i < v.len()
        invariant
            from <= i <= v@.len(),
            pv == pairs_v(v@).skip(from as int),
            forall|j: int| 0 <= j < i - from ==> (#[trigger] pv[j]).0 != k,
        decreases v@.len() - i,
    {
        assert(pv[i - from].0 == v@[i as int].0);
        if v[i].0 == k {
            return true;
        }
        i += 1;
    }
    assert(!has_key(pv, k));
    false
}

fn table_names(t: &pinref::PinTable) -> (r: Vec<(Key, String)>)
    requires
        pinref::table_ok(t@),
    ensures
        pairs_v(r@) == table_pairs(t@, t@.len() as int),
{
    let ghost tv = t@;
    let mut r: Vec<(Key, String)> = Vec::new();
    let mut i: usize = 0;
    assert(pairs_v(r@) =~= table_pairs(tv, 0));
    while i < t.v.len()
        invariant
            i <= t.v@.len(),
            tv == t@,
            tv.len() == t.v@.len(),
            pinref::table_ok(tv),
            pairs_v(r@) == table_pairs(tv, i as int),
        decreases t.v@.len() - i,
    {
        let m = &t.v[i].1;
        assert(tv[i as int] == (t.v@[i as int].0@, m@));
        assert(pinref::spots_ok(tv[i as int].1));
        let ghost base = pairs_v(r@);
        let from: usize = r.len();
        let mut j: usize = 0;
        assert(pairs_v(r@) =~= base + spot_pairs(tv[i as int].0, m@, 0));
        while j < m.v.len()
            invariant
                j <= m.v@.len(),
                from == base.len(),
                from <= r@.len(),
                i < t.v@.len(),
                tv == t@,
                tv[i as int] == (t.v@[i as int].0@, m@),
                pinref::spots_ok(m@),
                pairs_v(r@) == base + spot_pairs(tv[i as int].0, m@, j as int),
            decreases m.v@.len() - j,
        {
            let e = &m.v[j];
            assert(m@[j as int] == (e.0@, e.1));
            assert(pinref::spot_ok(m@[j as int].1));
            let k = Key::of(Pt { x: e.1.x * 100, y: e.1.y * 100 });
            let ghost sp = spot_pairs(tv[i as int].0, m@, j as int);
            assert(pairs_v(r@).skip(from as int) =~= sp);
            if !knows_key(&r, from, k) {
                let name = Line::of(t.v[i].0.as_str()).add(".").add(e.0.as_str()).done();
                let ghost r0 = pairs_v(r@);
                let ghost nv = name@;
                r.push((k, name));
                assert(pairs_v(r@) =~= r0.push((k, nv)));
                assert(pairs_v(r@) =~= base + sp.push((k, nv)));
            }
            j += 1;
        }
        i += 1;
    }
    r
}

fn add_items(r: &mut Vec<(Key, String)>, v: &Vec<Json>, lead: &str, k: &str)
    requires
        json::all_ok(json::values_v(v@)),
    ensures
        pairs_v(final(r)@) == pairs_v(old(r)@) + item_pairs(json::values_v(v@), lead@, k@),
{
    let ghost vv = json::values_v(v@);
    let ghost want = item_pairs(vv, lead@, k@);
    let ghost base = pairs_v(r@);
    let mut i: usize = 0;
    assert(pairs_v(r@) =~= base + want.take(0));
    while i < v.len()
        invariant
            i <= v@.len(),
            vv == json::values_v(v@),
            json::all_ok(vv),
            want == item_pairs(vv, lead@, k@),
            pairs_v(r@) == base + want.take(i as int),
        decreases v@.len() - i,
    {
        assert(vv[i as int] == v@[i as int]@);
        assert(json::ok(vv[i as int]));
        let o = object_of(&v[i]);
        let at = list_of(&o, "at");
        let name = pinref::field_text(&v[i], k);
        let t = Line::of(lead).add(name.as_str()).done();
        let ghost r0 = pairs_v(r@);
        let key = grid_key(&at);
        let ghost tv = t@;
        r.push((key, t));
        assert((key, tv) == want[i as int]);
        assert(pairs_v(r@) =~= r0.push(want[i as int]));
        assert(want.take(i + 1) =~= want.take(i as int).push(want[i as int]));
        assert(pairs_v(r@) =~= base + want.take(i + 1));
        i += 1;
    }
    assert(want.take(want.len() as int) =~= want);
}

fn point_list(p: &Json) -> (r: Vec<Json>)
    requires
        json::ok(p@),
    ensures
        json::values_v(r@) == json::items_of(p@),
        json::all_ok(json::values_v(r@)),
{
    let r: Vec<Json> = match p.as_array() {
        Some(a) => json::dup_values(a),
        None => Vec::new(),
    };
    assert(json::values_v(r@) =~= json::items_of(p@));
    r
}

fn ends_of(w: &Json) -> (r: Vec<Key>)
    requires
        json::ok(w@),
    ensures
        r@ == path_ends(w@),
{
    let o = object_of(w);
    let v = list_of(&o, "pts");
    let ghost vv = json::values_v(v@);
    let mut r: Vec<Key> = Vec::new();
    if v.len() > 0 {
        let n: usize = v.len();
        assert(vv[0] == v@[0]@ && vv[n - 1] == v@[n - 1]@);
        assert(json::ok(vv[0]) && json::ok(vv[n - 1]));
        r.push(grid_key(&point_list(&v[0])));
        r.push(grid_key(&point_list(&v[n - 1])));
        assert(r@ =~= path_ends(w@));
    } else {
        assert(r@ =~= path_ends(w@));
    }
    r
}

fn wire_ends(v: &Vec<Json>) -> (r: Vec<(Key, String)>)
    requires
        json::all_ok(json::values_v(v@)),
    ensures
        pairs_v(r@) == end_pairs(json::values_v(v@), v@.len() as int),
{
    let ghost vv = json::values_v(v@);
    let mut r: Vec<(Key, String)> = Vec::new();
    let mut i: usize = 0;
    assert(pairs_v(r@) =~= end_pairs(vv, 0));
    while i < v.len()
        invariant
            i <= v@.len(),
            vv == json::values_v(v@),
            json::all_ok(vv),
            pairs_v(r@) == end_pairs(vv, i as int),
        decreases v@.len() - i,
    {
        assert(vv[i as int] == v@[i as int]@);
        assert(json::ok(vv[i as int]));
        if v[i].as_object().is_some() {
            let ks = ends_of(&v[i]);
            let id = pinref::field_text(&v[i], "id");
            let ghost base = pairs_v(r@);
            let ghost w = vv[i as int];
            let ghost want = Seq::new(
                path_ends(w).len(),
                |i: int| (path_ends(w)[i], pinref::text_field(w, "id"@)),
            );
            let mut j: usize = 0;
            assert(pairs_v(r@) =~= base + want.take(0));
            while j < ks.len()
                invariant
                    j <= ks@.len(),
                    ks@ == path_ends(w),
                    id@ == pinref::text_field(w, "id"@),
                    want == Seq::new(
                        path_ends(w).len(),
                        |i: int| (path_ends(w)[i], pinref::text_field(w, "id"@)),
                    ),
                    pairs_v(r@) == base + want.take(j as int),
                decreases ks@.len() - j,
            {
                let ghost r0 = pairs_v(r@);
                r.push((ks[j], id.clone()));
                assert(pairs_v(r@) =~= r0.push(want[j as int]));
                assert(want.take(j + 1) =~= want.take(j as int).push(want[j as int]));
                assert(pairs_v(r@) =~= base + want.take(j + 1));
                j += 1;
            }
            assert(want.take(want.len() as int) =~= want);
        }
        i += 1;
    }
    r
}

pub open spec fn but_v(b: Option<&str>) -> Option<Seq<char>> {
    match b {
        Some(s) => Some(s@),
        None => None,
    }
}

fn add_names(s: &mut Vec<String>, v: &Vec<(Key, String)>, k: Key, but: Option<&str>)
    ensures
        text::views(final(s)@) == with_names(
            text::views(old(s)@),
            pairs_v(v@),
            k,
            but_v(but),
            v@.len() as int,
        ),
{
    let ghost s0 = text::views(s@);
    let ghost pv = pairs_v(v@);
    let mut i: usize = 0;
    while i < v.len()
        invariant
            i <= v@.len(),
            pv == pairs_v(v@),
            text::views(s@) == with_names(s0, pv, k, but_v(but), i as int),
        decreases v@.len() - i,
    {
        assert(pv[i as int] == (v@[i as int].0, v@[i as int].1@));
        let own = match but {
            Some(b) => same(b, v[i].1.as_str()),
            None => false,
        };
        if v[i].0 == k && !own {
            add_distinct(s, v[i].1.clone());
        }
        i += 1;
    }
}

fn annotate(w: &Json, at: &Vec<(Key, String)>, ends: &Vec<(Key, String)>) -> (r: Json)
    requires
        json::ok(w@),
    ensures
        r@ == annotated(pairs_v(at@), pairs_v(ends@), w@),
        json::ok(r@),
{
    match w.as_object() {
        Some(o) => {
            let mut o = dup_entries(o);
            let ks = ends_of(w);
            let id = pinref::field_text(w, "id");
            let ghost av = pairs_v(at@);
            let ghost ev = pairs_v(ends@);
            let mut s: Vec<String> = Vec::new();
            let mut j: usize = 0;
            assert(text::views(s@) =~= touched(av, ev, ks@, id@, 0));
            while j < ks.len()
                invariant
                    j <= ks@.len(),
                    av == pairs_v(at@),
                    ev == pairs_v(ends@),
                    av.len() == at@.len(),
                    ev.len() == ends@.len(),
                    text::views(s@) == touched(av, ev, ks@, id@, j as int),
                decreases ks@.len() - j,
            {
                add_names(&mut s, at, ks[j], None);
                add_names(&mut s, ends, ks[j], Some(id.as_str()));
                j += 1;
            }
            let x = texts_json(&s);
            proof {
                json::lemma_put_ok(json::entries_v(o@), "touches"@, x@);
            }
            put_entry(&mut o, "touches", x);
            Fields { v: o }.done()
        },
        None => w.dup(),
    }
}

/// Adds to every tagged wire what its ends touch: pins, labels, power symbols and other wires.
pub fn annotate_wires(d: &mut Json, index: &SymbolIndex, own: &OrderMap<Arc<SymbolInfo>>)
    requires
        old(d)@ is Obj,
        wires_tagged(json::entries_of(old(d)@)),
        json::within(old(d)@, POINT_MAX as int),
        index.wf(),
        compile::infos_ok(*own),
    ensures
        final(d)@ == annotated_design(old(d)@, *index, *own),
        json::ok(final(d)@),
{
    let ghost j = d@;
    proof {
        json::lemma_within_ok(j, POINT_MAX as int);
        json::lemma_items_within(j, POINT_MAX as int);
        model_json::lemma_normalized_within(j, POINT_MAX as int);
    }
    let mut plain = normal_entries(d);
    let ghost p0 = json::entries_v(plain@);
    let parts = list_in(&plain, "parts");
    let ghost partv = json::values_v(parts@);
    let t0 = pin_lookup_table(&parts, index, own);
    resolve_with(&mut plain, &t0);
    let moved = list_of(&plain, "parts");
    proof {
        pinref::resolving_keeps_parts(p0, t0@);
        let mv = json::values_v(moved@);
        assert forall|i: int| 0 <= i < mv.len() implies json::within(
            #[trigger] mv[i],
            POINT_MAX as int,
        ) by {
            assert(json::within(partv[i], POINT_MAX as int));
            pinref::lemma_half_item_within(partv[i]);
        }
    }
    let t = pin_lookup_table(&moved, index, own);
    assert(t@ == resolved_table(j, *index, *own));
    let mut o = object_of(d);
    let ghost dv = json::entries_v(o@);
    let mut at = table_names(&t);
    add_items(&mut at, &list_of(&o, "labels"), "label:", "text");
    add_items(&mut at, &list_of(&o, "power"), "power:", "net");
    assert(pairs_v(at@) =~= design_pairs(dv, t@));
    let wires = list_of(&o, "wires");
    let ghost wv = json::values_v(wires@);
    assert(wv.len() == wires@.len());
    let ends = wire_ends(&wires);
    let ghost want = Seq::new(
        wv.len(),
        |i: int| annotated(pairs_v(at@), pairs_v(ends@), wv[i]),
    );
    let mut out: Vec<Json> = Vec::new();
    let mut i: usize = 0;
    while i < wires.len()
        invariant
            i <= wires@.len(),
            wv == json::values_v(wires@),
            json::all_ok(wv),
            want == Seq::new(
                wv.len(),
                |i: int| annotated(pairs_v(at@), pairs_v(ends@), wv[i]),
            ),
            out@.len() == i,
            forall|k: int| 0 <= k < i ==> (#[trigger] out@[k])@ == want[k] && json::ok(out@[k]@),
        decreases wires@.len() - i,
    {
        assert(wv[i as int] == wires@[i as int]@);
        assert(json::ok(wv[i as int]));
        let e = annotate(&wires[i], &at, &ends);
        assert(e@ == want[i as int]);
        out.push(e);
        i += 1;
    }
    assert(json::values_v(out@) =~= want);
    let x = list_json(out);
    proof {
        json::lemma_put_ok(json::entries_v(o@), "wires"@, x@);
    }
    put_entry(&mut o, "wires", x);
    *d = Fields { v: o }.done();
}

} // verus!
