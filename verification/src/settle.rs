//! A design that was read from a sheet: compiling it gives a sheet that reads as the same design.
use crate::compile;
use crate::compile::{Shelf, StateV, Used};
use crate::extract;
use crate::geom::Pt;
use crate::group;
use crate::json::JsonV;
use crate::model::{AnchorV, DesignV, PartV};
use crate::order_map;
use crate::order_map::OrderMap;
use crate::place_text;
use crate::place_text::{AtV, PairV, TextCtx};
use crate::readback;
use crate::readback::{
    libs_by_name, piece_ids, pieces_read, read_label, read_text, reread_named, steady,
};
use crate::readsym;
use crate::readsym::{
    anchor_read, datasheet_shown, description_shown, field_shown, fields_after, fields_read,
    first_fields, has_place, noted, on_tenths, part_read, power_point, power_read, power_seen,
    readable_at, spaced, WrittenPart, WrittenPower,
};
use crate::roundtrip;
use crate::roundtrip::{tidy, well_named};
use crate::sexp;
use crate::sexp::SexpV;
use crate::spacing::{lemma_has_words, lemma_usual, spacing_twice_is_spacing_once};
use crate::symlib::SymbolInfo;
use std::sync::Arc;
use vstd::prelude::*;

verus! {

// ---------------------------------------------------------------- fields
/// Whether a part leaves data sheet and description blank only where its symbol does: a blank one is
/// not read, and the symbol's own would take its place.
pub open spec fn blanks_agree(p: PartV, info: SymbolInfo) -> bool {
    &&& !extract::is_field("Datasheet"@, datasheet_shown(p, info)) ==> !extract::is_field(
        "Datasheet"@,
        compile::if_empty(info.datasheet@, "~"@),
    )
    &&& !extract::is_field("Description"@, description_shown(p, info)) ==> !extract::is_field(
        "Description"@,
        info.description@,
    )
}

/// Fields as they are read: one of each name, each with a text, and behind the first few none that
/// has a place of its own.
spec fn field_list(m: Seq<(Seq<char>, JsonV)>, pre: Seq<(Seq<char>, JsonV)>) -> bool {
    &&& pre.len() <= m.len()
    &&& forall|i: int| 0 <= i < pre.len() ==> #[trigger] m[i] == pre[i] && has_place(m[i].0)
    &&& forall|i: int| pre.len() <= i < m.len() ==> !has_place((#[trigger] m[i]).0)
    &&& order_map::keys_once(m)
    &&& forall|i: int|
        0 <= i < m.len() ==> (#[trigger] m[i]).1 is Str && extract::is_field(
            m[i].0,
            field_shown(m[i].1),
        )
}

proof fn lemma_field_noted(
    m: Seq<(Seq<char>, JsonV)>,
    pre: Seq<(Seq<char>, JsonV)>,
    k: Seq<char>,
    t: Seq<char>,
)
    requires
        field_list(m, pre),
        !has_place(k),
    ensures
        field_list(noted(m, k, t), pre),
{
    order_map::lemma_seek(m, k, 0);
    order_map::putting_keeps_keys_once(m, k, JsonV::Str(t));
    let r = noted(m, k, t);
    let s = order_map::seek(m, k, 0);
    if s < pre.len() {
        assert(has_place(m[s].0));
    }
    assert forall|i: int| 0 <= i < r.len() implies (#[trigger] r[i]).1 is Str && extract::is_field(
        r[i].0,
        field_shown(r[i].1),
    ) && (i < pre.len() ==> r[i] == pre[i] && has_place(r[i].0)) && (i >= pre.len() ==> !has_place(
        r[i].0,
    )) by {
        if i < m.len() {
            assert(m[i].1 is Str);
            if i < pre.len() {
                assert(m[i] == pre[i]);
            }
        }
    }
}

proof fn lemma_fields_listed(
    fields: Seq<(Seq<char>, JsonV)>,
    pre: Seq<(Seq<char>, JsonV)>,
    n: int,
)
    requires
        field_list(pre, pre),
    ensures
        field_list(fields_after(fields, pre, n), pre),
    decreases n,
{
    if n > 0 {
        lemma_fields_listed(fields, pre, n - 1);
        if !has_place(fields[n - 1].0) {
            lemma_field_noted(
                fields_after(fields, pre, n - 1),
                pre,
                fields[n - 1].0,
                field_shown(fields[n - 1].1),
            );
        }
    }
}

#[verifier::rlimit(40)]
proof fn lemma_first_fields(p: PartV, info: SymbolInfo)
    ensures
        ({
            let m = first_fields(p, info);
            let d = extract::is_field("Datasheet"@, datasheet_shown(p, info));
            let e = extract::is_field("Description"@, description_shown(p, info));
            let a = ("Datasheet"@, JsonV::Str(datasheet_shown(p, info)));
            let b = ("Description"@, JsonV::Str(description_shown(p, info)));
            &&& field_list(m, m)
            &&& m == (if d && e {
                seq![a, b]
            } else if d {
                seq![a]
            } else if e {
                seq![b]
            } else {
                Seq::empty()
            })
        }),
{
    readback::lemma_tags();
    let none = Seq::<(Seq<char>, JsonV)>::empty();
    let m = noted(none, "Datasheet"@, datasheet_shown(p, info));
    let r = first_fields(p, info);
    order_map::lemma_seek(none, "Datasheet"@, 0);
    order_map::lemma_seek(m, "Description"@, 0);
    assert("Datasheet"@ != "Description"@);
    let a = ("Datasheet"@, JsonV::Str(datasheet_shown(p, info)));
    let b = ("Description"@, JsonV::Str(description_shown(p, info)));
    if extract::is_field("Datasheet"@, datasheet_shown(p, info)) {
        assert(m =~= seq![a]);
        if order_map::seek(m, "Description"@, 0) < m.len() {
            assert(m[0].0 == "Datasheet"@);
        }
    } else {
        assert(m =~= none);
    }
    if extract::is_field("Description"@, description_shown(p, info)) {
        assert(r =~= m.push(b));
    }
    assert(r =~= (if extract::is_field("Datasheet"@, datasheet_shown(p, info))
        && extract::is_field("Description"@, description_shown(p, info)) {
        seq![a, b]
    } else if extract::is_field("Datasheet"@, datasheet_shown(p, info)) {
        seq![a]
    } else if extract::is_field("Description"@, description_shown(p, info)) {
        seq![b]
    } else {
        none
    }));
}

proof fn lemma_fields_again(f: Seq<(Seq<char>, JsonV)>, pre: Seq<(Seq<char>, JsonV)>, n: int)
    requires
        field_list(f, pre),
        0 <= n <= f.len(),
    ensures
        fields_after(f, pre, n) == (if n <= pre.len() {
            pre
        } else {
            f.take(n)
        }),
    decreases n,
{
    if n > 0 {
        lemma_fields_again(f, pre, n - 1);
        if n > pre.len() {
            let m = fields_after(f, pre, n - 1);
            assert(f.take(pre.len() as int) =~= pre);
            assert(m == f.take(n - 1));
            let (k, v) = f[n - 1];
            order_map::lemma_seek(m, k, 0);
            let s = order_map::seek(m, k, 0);
            if s < m.len() {
                assert(f[s].0 != f[n - 1].0);
            }
            assert(f[n - 1].1 is Str);
            assert(f.take(n) =~= m.push((k, v)));
        } else {
            assert(f[n - 1] == pre[n - 1]);
        }
    }
}

/// The fields of a part that was read are read again.
#[verifier::rlimit(40)]
proof fn lemma_fields_settle(p: PartV, q: PartV, info: SymbolInfo)
    requires
        q.fields == fields_read(p, info),
        blanks_agree(p, info),
    ensures
        fields_read(q, info) == q.fields,
{
    let pre = first_fields(p, info);
    let f = q.fields;
    lemma_first_fields(p, info);
    lemma_fields_listed(p.fields, pre, p.fields.len() as int);
    readback::lemma_tags();
    assert("Datasheet"@ != "Description"@);
    lemma_named_field(f, pre, "Datasheet"@);
    lemma_named_field(f, pre, "Description"@);
    lemma_first_fields(q, info);
    let (ds, de) = (datasheet_shown(p, info), description_shown(p, info));
    assert(order_map::look(pre, "Datasheet"@) == (if extract::is_field("Datasheet"@, ds) {
        Some(JsonV::Str(ds))
    } else {
        None
    })) by {
        reveal_with_fuel(order_map::seek, 4);
    }
    assert(order_map::look(pre, "Description"@) == (if extract::is_field("Description"@, de) {
        Some(JsonV::Str(de))
    } else {
        None
    })) by {
        reveal_with_fuel(order_map::seek, 4);
    }
    assert(first_fields(q, info) =~= pre);
    lemma_fields_again(f, pre, f.len() as int);
    assert(f.take(pre.len() as int) =~= pre);
    assert(f.take(f.len() as int) =~= f);
}

/// A field with a place of its own is found where it stands first.
proof fn lemma_named_field(f: Seq<(Seq<char>, JsonV)>, pre: Seq<(Seq<char>, JsonV)>, k: Seq<char>)
    requires
        field_list(f, pre),
        has_place(k),
    ensures
        order_map::look(f, k) == order_map::look(pre, k),
{
    order_map::lemma_seek(f, k, 0);
    order_map::lemma_seek(pre, k, 0);
    let i = order_map::seek(f, k, 0);
    let j = order_map::seek(pre, k, 0);
    if i < f.len() {
        assert(f[i].0 == k);
        if i < pre.len() {
            assert(f[i] == pre[i]);
            if j < i {
                assert(f[j] == pre[j]);
                assert(f[j].0 != k);
            }
        }
    } else if j < pre.len() {
        assert(f[j] == pre[j]);
        assert(f[j].0 != k);
    }
}

// ---------------------------------------------------------------- anchors
/// Where a text can be read and given again.
pub(crate) open spec fn fair_at(a: AtV) -> bool {
    readable_at(a) && i32::MIN <= a.rot <= i32::MAX
}

pub(crate) open spec fn fair_turn(a: PairV) -> bool {
    i32::MIN <= a.r.rot <= i32::MAX && i32::MIN <= a.v.rot <= i32::MAX
}

proof fn lemma_first_clear(c: TextCtx, a: PairV, tries: Seq<PairV>, i: int)
    requires
        fair_turn(a),
        forall|j: int| 0 <= j < tries.len() ==> fair_turn(#[trigger] tries[j]),
    ensures
        fair_turn(place_text::first_clear(c, a, tries, i)),
    decreases tries.len() - i,
{
    if 0 <= i < tries.len() {
        assert(fair_turn(tries[i]));
        lemma_first_clear(c, a, tries, i + 1);
    }
}

proof fn lemma_value_from(c: TextCtx, a: PairV, tries: Seq<AtV>, i: int)
    requires
        fair_turn(a),
        forall|j: int| 0 <= j < tries.len() ==> (#[trigger] tries[j]).rot == 0,
    ensures
        fair_turn(place_text::value_from(c, a, tries, i)),
    decreases tries.len() - i,
{
    if 0 <= i < tries.len() {
        assert(tries[i].rot == 0);
        lemma_value_from(c, a, tries, i + 1);
    }
}

/// Texts are set at angles that can be given.
#[verifier::rlimit(40)]
pub(crate) proof fn lemma_fair_turn(c: TextCtx, node: SexpV)
    ensures
        fair_turn(place_text::text_places(c, node)),
{
    let a = place_text::first_pair(c, node);
    assert(0 <= place_text::level(c.p.rot) < 180);
    assert(fair_turn(a));
    let b = place_text::lying(c, place_text::with_air(c, a));
    assert(fair_turn(b));
    let tries = place_text::stack_tries(c, b);
    assert forall|j: int| 0 <= j < tries.len() implies fair_turn(#[trigger] tries[j]) by {
        let s0 = place_text::slot_pair(
            c,
            crate::engine::text_slot_spec(c.pins(), c.p.rot, c.flip()),
        );
        let s1 = place_text::slot_pair(c, crate::engine::TextSlot::Right);
        let s2 = place_text::slot_pair(c, crate::engine::TextSlot::Left);
        let s3 = place_text::slot_pair(c, crate::engine::TextSlot::Above);
        let s4 = place_text::slot_pair(c, crate::engine::TextSlot::Below);
        assert(fair_turn(s0) && fair_turn(s1) && fair_turn(s2) && fair_turn(s3) && fair_turn(s4));
        assert(tries[j] == s0 || tries[j] == b || tries[j] == s1 || tries[j] == s2 || tries[j] == s3
            || tries[j] == s4);
    }
    lemma_first_clear(c, b, tries, 0);
    let d = place_text::stacked(c, b);
    lemma_value_from(c, d, place_text::value_tries(c, d.v), 0);
}

/// An anchor that was read is given as it was read.
proof fn lemma_anchor(a: AtV)
    requires
        fair_at(a),
    ensures
        anchor_read(place_text::given(anchor_read(a))) == anchor_read(a),
{
    spacing_twice_is_spacing_once(a.justify);
    let g = place_text::given(anchor_read(a));
    assert(anchor_read(a).rest[0] == JsonV::Int(a.rot));
    assert(anchor_read(a).rest[1] == JsonV::Str(spaced(a.justify)));
    assert(g.rot == a.rot);
    assert(anchor_read(g).rest =~= anchor_read(a).rest);
}

/// Texts that were given a place stand there.
pub proof fn given_texts_stay(c: TextCtx, node: SexpV, a: AnchorV, b: AnchorV)
    requires
        c.p.ref_at == Some(a),
        c.p.val_at == Some(b),
    ensures
        place_text::text_places(c, node) == (PairV {
            r: place_text::given(a),
            v: place_text::given(b),
        }),
{
}

// ---------------------------------------------------------------- parts and power symbols
/// A part that was read is read again.
#[verifier::rlimit(40)]
pub(crate) proof fn lemma_part_settles(w: WrittenPart, v: WrittenPart, node: SexpV)
    requires
        v.c.p == part_read(w),
        v.c.info == w.c.info,
        v.places == place_text::text_places(v.c, node),
        v.uuid == w.uuid,
        fair_at(w.places.r),
        fair_at(w.places.v),
        blanks_agree(w.c.p, w.c.info),
    ensures
        part_read(v) == part_read(w),
{
    let p = w.c.p;
    let q = part_read(w);
    lemma_fields_settle(p, q, w.c.info);
    given_texts_stay(v.c, node, anchor_read(w.places.r), anchor_read(w.places.v));
    lemma_anchor(w.places.r);
    lemma_anchor(w.places.v);
}

/// Whether the pin of a power symbol is known where it is read as where it was written.
pub open spec fn pins_agree(u: Used, info: Option<Arc<SymbolInfo>>) -> bool {
    &&& u.src.wf()
    &&& info is Some
    &&& info->0.pins@.len() == u.src.pins@.len()
    &&& u.src.pins@.len() > 0 ==> info->0.pins@[0].x == u.src.pins@[0].x && info->0.pins@[0].y
        == u.src.pins@[0].y
}

/// A power symbol that was read is read again.
#[verifier::rlimit(40)]
pub(crate) proof fn lemma_power_settles(
    x: WrittenPower,
    y: WrittenPower,
    infos: OrderMap<Arc<SymbolInfo>>,
    infos2: OrderMap<Arc<SymbolInfo>>,
)
    requires
        y.w == power_read(x, infos),
        y.u == x.u,
        y.lib == x.lib,
        y.reference == x.reference,
        y.uuid == x.uuid,
        compile::power_shown(x.w).len() > 0,
        on_tenths(x.w.at),
        crate::model::on_sheet(x.w.at),
        pins_agree(x.u, extract::info_for(infos, Seq::empty(), x.lib)),
        pins_agree(x.u, extract::info_for(infos2, Seq::empty(), x.lib)),
        fair_at(compile::power_value_at(x.w, power_seen(x), x.libnode)),
    ensures
        power_read(y, infos2) == power_read(x, infos),
        power_point(x, infos) == x.w.at,
{
    readsym::power_symbols_keep_their_point(
        x,
        infos,
        extract::info_for(infos, Seq::empty(), x.lib)->0,
    );
    readsym::power_symbols_keep_their_point(
        y,
        infos2,
        extract::info_for(infos2, Seq::empty(), x.lib)->0,
    );
    lemma_anchor(compile::power_value_at(x.w, power_seen(x), x.libnode));
}

// ---------------------------------------------------------------- what is drawn
pub(crate) proof fn lemma_reread_twice(n: SexpV)
    requires
        steady(n),
    ensures
        sexp::reread(sexp::reread(n)) == sexp::reread(n),
        steady(sexp::reread(n)),
        sexp::tag_of(sexp::reread(n)) == sexp::tag_of(n),
        sexp::reread(n) is List <==> n is List,
        extract::text_of(Some(sexp::reread(n))) == extract::text_of(Some(n)),
    decreases n,
{
    if let SexpV::List(v) = n {
        readback::lemma_text_at(n, 1);
        readback::lemma_list(n);
        let r = sexp::reread(n);
        let w = r->List_0;
        sexp::lemma_reread_items(w, w.len());
        assert forall|i: int| 0 <= i < w.len() implies sexp::reread(#[trigger] w[i]) == w[i]
            && steady(w[i]) by {
            assert(steady(v[i]));
            assert(sexp::items_of(r)[i] == sexp::reread(v[i]));
            lemma_reread_twice(v[i]);
        }
        assert(sexp::reread_items(w, w.len()) =~= w);
    } else {
        readback::lemma_atom(n);
        readback::lemma_atom_again(n);
    }
}

proof fn lemma_pieces_again(ws: Seq<Seq<Pt>>, segs: Seq<(Pt, Pt)>, ids: Seq<Seq<char>>, n: int)
    requires
        ws.len() == segs.len(),
        0 <= n <= ws.len(),
        forall|i: int| 0 <= i < ws.len() ==> #[trigger] ws[i] == seq![segs[i].0, segs[i].1],
    ensures
        group::all_segs(ws, n) == segs.take(n),
        compile::kept_ids(ws, ids, n).len() == n,
        ids.len() == ws.len() ==> compile::kept_ids(ws, ids, n) == ids.take(n),
    decreases n,
{
    if n > 0 {
        lemma_pieces_again(ws, segs, ids, n - 1);
        assert(ws[n - 1] == seq![segs[n - 1].0, segs[n - 1].1]);
        reveal_with_fuel(group::segs_of, 2);
        let s = group::segs_of(ws[n - 1], 1);
        assert(s =~= seq![segs[n - 1]]);
        assert(segs.take(n) =~= segs.take(n - 1) + s);
        if ids.len() == ws.len() {
            assert(compile::kept_ids(ws, ids, n) =~= ids.take(n));
        }
    } else {
        assert(segs.take(0) =~= Seq::empty());
        assert(ids.len() == ws.len() ==> ids.take(0) =~= Seq::empty());
    }
}

/// Wires that were read are read again.
pub(crate) proof fn lemma_wires_settle(d: DesignV, ids: compile::IdsV, e: DesignV, ids2: compile::IdsV)
    requires
        e.wires == pieces_read(d),
        e.wire_uuids == piece_ids(d, ids),
        compile::made_up(ids.wires),
        ids.wires.len() == group::all_segs(d.wires, d.wires.len() as int).len(),
    ensures
        pieces_read(e) == e.wires,
        piece_ids(e, ids2) == e.wire_uuids,
        group::all_segs(e.wires, e.wires.len() as int) == group::all_segs(
            d.wires,
            d.wires.len() as int,
        ),
{
    let segs = group::all_segs(d.wires, d.wires.len() as int);
    lemma_pieces_again(e.wires, segs, e.wire_uuids, e.wires.len() as int);
    assert(segs.take(segs.len() as int) =~= segs);
    assert(e.wire_uuids.take(e.wire_uuids.len() as int) =~= e.wire_uuids);
    assert(pieces_read(e) =~= e.wires);
    assert(piece_ids(e, ids2) =~= e.wire_uuids) by {
        assert forall|i: int| 0 <= i < e.wire_uuids.len() implies piece_ids(e, ids2)[i]
            == #[trigger] e.wire_uuids[i] by {
            assert(crate::ids::is_uuid(ids.wires[i]));
        }
    }
}

pub(crate) proof fn lemma_label_settles(l: crate::model::LabelV, id: Seq<char>, id2: Seq<char>)
    requires
        id.len() == 36,
        l.justify.len() == 0 || spaced(l.justify).len() > 0,
    ensures
        read_label(read_label(l, id), id2) == read_label(l, id),
{
    let d = compile::label_justify_spec(l.kind, l.rot);
    let j = compile::if_empty(l.justify, d);
    reveal_strlit("left bottom");
    reveal_strlit("right bottom");
    reveal_strlit("left");
    reveal_strlit("right");
    lemma_has_words(d);
    assert(spaced(j).len() > 0);
    spacing_twice_is_spacing_once(j);
}

pub(crate) proof fn lemma_text_settles(t: crate::model::TextV, id: Seq<char>, id2: Seq<char>)
    requires
        id.len() == 36,
    ensures
        read_text(read_text(t, id), id2) == read_text(t, id),
{
    spacing_twice_is_spacing_once(t.justify);
    lemma_usual();
    reveal_strlit("left bottom");
}

// ---------------------------------------------------------------- symbols in use
/// What a list of symbols in the order of their names holds is what it held before.
pub(crate) proof fn lemma_look_by_name(libs: Seq<(Seq<char>, SexpV)>, k: Seq<char>)
    requires
        order_map::keys_once(libs),
    ensures
        order_map::look(libs_by_name(libs), k) == order_map::look(libs, k),
{
    let b = libs_by_name(libs);
    let names = Seq::new(libs.len(), |i: int| libs[i].0);
    let counts = Seq::new(libs.len(), |i: int| 0i64);
    let o = crate::order::by_name(counts, names);
    crate::order::ranked_lists_all(
        |a: int, b: int|
            counts[a] < counts[b] || (counts[a] == counts[b] && crate::text::before(
                names[a],
                names[b],
            )),
        names.len() as int,
    );
    order_map::lemma_seek(libs, k, 0);
    order_map::lemma_seek(b, k, 0);
    let i = order_map::seek(libs, k, 0);
    let j = order_map::seek(b, k, 0);
    if j < b.len() {
        assert(0 <= o[j] < libs.len());
        assert(b[j] == libs[o[j]]);
        if i < o[j] {
            assert(libs[i].0 != libs[o[j]].0);
        }
    } else if i < libs.len() {
        crate::order::lemma_lists(o, libs.len() as int, i);
        let q = choose|q: int| 0 <= q < o.len() && o[q] == i;
        assert(b[q] == libs[i]);
        assert(b[q].0 != k);
    }
}

pub(crate) proof fn lemma_look_reread(v: Seq<(Seq<char>, SexpV)>, k: Seq<char>)
    ensures
        order_map::look(reread_named(v), k) == (match order_map::look(v, k) {
            Some(n) => Some(sexp::reread(n)),
            None => None,
        }),
{
    roundtrip::lemma_keys(reread_named(v), v, k, 0);
    order_map::lemma_seek(v, k, 0);
}

/// The order of names does not depend on what the names stand for.
pub(crate) proof fn lemma_by_name_reread(libs: Seq<(Seq<char>, SexpV)>)
    ensures
        libs_by_name(reread_named(libs)) == reread_named(libs_by_name(libs)),
{
    let r = reread_named(libs);
    let names = Seq::new(libs.len(), |i: int| libs[i].0);
    let counts = Seq::new(libs.len(), |i: int| 0i64);
    assert(Seq::new(r.len(), |i: int| r[i].0) =~= names);
    assert(Seq::new(r.len(), |i: int| 0i64) =~= counts);
    let o = crate::order::by_name(counts, names);
    crate::order::ranked_lists_all(
        |a: int, b: int|
            counts[a] < counts[b] || (counts[a] == counts[b] && crate::text::before(
                names[a],
                names[b],
            )),
        names.len() as int,
    );
    assert(libs_by_name(r) =~= reread_named(libs_by_name(libs))) by {
        assert forall|i: int| 0 <= i < libs.len() implies #[trigger] libs_by_name(r)[i]
            == reread_named(libs_by_name(libs))[i] by {
            assert(0 <= o[i] < libs.len());
        }
    }
}

/// One more symbol is looked up: where the first sheet embeds its node, the second embeds what is
/// read of it.
#[verifier::rlimit(40)]
pub(crate) proof fn lemma_same_step(
    a: StateV,
    b: StateV,
    d: DesignV,
    e: DesignV,
    s: Shelf,
    s2: Shelf,
    lib: Seq<char>,
    name: Seq<char>,
    last: Seq<(Seq<char>, SexpV)>,
)
    requires
        tidy(a),
        tidy(b),
        b.libs == reread_named(a.libs),
        e.lib_symbols == reread_named(libs_by_name(last)),
        order_map::keys_once(last),
        compile::resolved(a, d, s, lib, name).1 is Some,
        order_map::look(last, compile::lib_key(lib, name)) == order_map::look(
            compile::resolved(a, d, s, lib, name).0.libs,
            compile::lib_key(lib, name),
        ),
        well_named(d.lib_symbols),
        well_named(sexp::named_v(s.stock@)),
    ensures
        compile::resolved(b, e, s2, lib, name).0.libs == reread_named(
            compile::resolved(a, d, s, lib, name).0.libs,
        ),
{
    let k = compile::lib_key(lib, name);
    roundtrip::lemma_resolved(a, d, s, lib, name);
    roundtrip::lemma_keys(a.libs, a.infos, k, 0);
    roundtrip::lemma_keys(b.libs, b.infos, k, 0);
    roundtrip::lemma_keys(a.libs, b.libs, k, 0);
    lemma_look_by_name(last, k);
    lemma_look_reread(libs_by_name(last), k);
    let r = compile::resolved(a, d, s, lib, name).0.libs;
    if order_map::look(a.infos, k) is None {
        let (n, u) = compile::find_symbol(d, s, lib, k)->0;
        roundtrip::lemma_look(a.libs, k);
        assert(r == a.libs.push((k, n)));
        assert(order_map::look(r, k) == Some(n));
        assert(order_map::look(e.lib_symbols, k) == Some(sexp::reread(n)));
        assert(reread_named(r) =~= b.libs.push((k, sexp::reread(n))));
    }
}

} // verus!
