//! What was read from a compiled sheet, compiled and read again.
use crate::compile;
use crate::compile::{Shelf, StateV, TrailV};
use crate::extract;
use crate::geom::Pt;
use crate::group;
use crate::model::{DesignV, LabelV, PartV, PowerV};
use crate::order_map;
use crate::order_map::OrderMap;
use crate::readback;
use crate::readback::{
    all_within_reach, kept_node, libs_by_name, reread_named, sheet_like, sheet_read, steady,
    SymbolsV,
};
use crate::readsym::{
    on_tenths, part_read, part_written, power_point, power_read, power_written, spaced,
};
use crate::roundtrip;
use crate::roundtrip::{all_found, all_stem, all_told, junctions_of, sheet_of, symbols_from, tidy};
use crate::settle;
use crate::settle::{blanks_agree, pins_agree};
use crate::sexp;
use crate::sexp::SexpV;
use crate::symlib::SymbolInfo;
use std::sync::Arc;
use vstd::prelude::*;

verus! {

// ---------------------------------------------------------------- once round
/// A design that is compiled to a text, with nothing gathered before, and the descriptions by which
/// the text is read.
pub struct RoundV {
    pub des0: DesignV,
    pub shelf: Shelf,
    pub st0: StateV,
    pub t: TrailV,
    pub des: DesignV,
    pub st: StateV,
    pub out: Seq<char>,
    pub infos: OrderMap<Arc<SymbolInfo>>,
}

/// Whether the design was compiled to the text, and the text can be told: every symbol is found,
/// parts and power symbols can be told apart, and every atom means the same when it is read.
pub open spec fn done(r: RoundV) -> bool {
    &&& compile::compiled(r.des0, r.shelf, r.st0, r.t, r.des, r.st, r.out)
    &&& r.st0.libs.len() == 0
    &&& r.st0.infos.len() == 0
    &&& all_found(r.des0, r.shelf, r.st0, r.t)
    &&& all_within_reach(junctions_of(r.des, r.shelf, r.t))
    &&& steady(sheet_of(r.des, r.shelf, r.t))
    &&& all_told(r.des, r.infos)
}

/// What is at hand when all symbols have been written.
pub open spec fn last(r: RoundV) -> StateV {
    r.t.power_states[r.des0.power.len() as int]
}

pub open spec fn symbols(r: RoundV) -> SymbolsV {
    symbols_from(r.t, compile::identified(r.des0, r.t.uuid), r.shelf)
}

/// The design that is read.
pub open spec fn read(r: RoundV) -> DesignV {
    extract::design_of(sexp::loaded(r.out)->0, r.infos)
}

#[verifier::rlimit(40)]
proof fn lemma_done(r: RoundV)
    requires
        done(r),
        sheet_like(r.des0),
    ensures
        read(r) == sheet_read(
            r.des,
            last(r).libs,
            junctions_of(r.des, r.shelf, r.t),
            r.t.ids,
            symbols(r),
            r.infos,
        ),
        all_stem(symbols(r), r.des0, r.des, r.shelf, last(r).infos),
        r.des == (DesignV { power: r.des.power, ..compile::identified(r.des0, r.t.uuid) }),
        roundtrip::on_the_way(compile::identified(r.des0, r.t.uuid), r.shelf, r.st0, r.t),
        tidy(last(r)),
        compile::present(r.t.nodes) == readback::symbol_nodes(symbols(r), r.des),
{
    let s = roundtrip::a_compiled_design_reads_back(
        r.des0,
        r.shelf,
        r.st0,
        r.t,
        r.des,
        r.st,
        r.out,
        r.infos,
    );
    roundtrip::lemma_trail(r.des0, r.shelf, r.st0, r.t, r.des, r.st, r.out);
}

/// Every node of a sheet whose atoms keep their meaning keeps it too.
#[verifier::rlimit(40)]
proof fn lemma_steady_nodes(r: RoundV)
    requires
        done(r),
        sheet_like(r.des0),
    ensures
        forall|i: int|
            0 <= i < r.des.extra_nodes.len() ==> steady(#[trigger] r.des.extra_nodes[i]),
        forall|i: int|
            0 <= i < symbols(r).parts.len() ==> steady(
                part_written(#[trigger] symbols(r).parts[i], r.des.project, r.des.sheet_path_uuid),
            ),
        forall|k: int|
            0 <= k < symbols(r).powers.len() ==> steady(
                power_written(#[trigger] symbols(r).powers[k], r.des),
            ),
        forall|i: int| 0 <= i < last(r).libs.len() ==> steady((#[trigger] last(r).libs[i]).1),
{
    lemma_done(r);
    let s = symbols(r);
    let sn = readback::symbol_nodes(s, r.des);
    let js = junctions_of(r.des, r.shelf, r.t);
    let root = sheet_of(r.des, r.shelf, r.t);
    let v = sexp::items_of(root);
    let w = compile::drawn_nodes(r.des, js, r.t.ids);
    readback::lemma_spots(r.des, last(r).libs, js, sn, r.t.ids);
    let c0 = compile::sheet_head(r.des).len() as int + 1;
    let c6 = c0 + w.len();
    let c7 = c6 + sn.len();
    let n = s.parts.len() as int;
    assert forall|i: int| 0 <= i < r.des.extra_nodes.len() implies steady(
        #[trigger] r.des.extra_nodes[i],
    ) by {
        assert(v[c7 + i] == r.des.extra_nodes[i]);
        crate::readsym::lemma_steady_items(v, c7 + i);
    }
    assert forall|i: int| 0 <= i < s.parts.len() implies steady(
        part_written(#[trigger] s.parts[i], r.des.project, r.des.sheet_path_uuid),
    ) by {
        assert(v[c6 + i] == sn[i]);
        crate::readsym::lemma_steady_items(v, c6 + i);
    }
    assert forall|k: int| 0 <= k < s.powers.len() implies steady(
        power_written(#[trigger] s.powers[k], r.des),
    ) by {
        assert(v[c6 + n + k] == sn[n + k]);
        crate::readsym::lemma_steady_items(v, c6 + n + k);
    }
    let libs = last(r).libs;
    let l = v[c0 - 1];
    crate::readsym::lemma_steady_items(v, c0 - 1);
    let lv = sexp::items_of(l);
    assert(l == SexpV::List(lv));
    let names = Seq::new(libs.len(), |i: int| libs[i].0);
    let counts = Seq::new(libs.len(), |i: int| 0i64);
    let o = crate::order::by_name(counts, names);
    crate::order::ranked_lists_all(
        |a: int, b: int|
            counts[a] < counts[b] || (counts[a] == counts[b] && crate::text::before(
                names[a],
                names[b],
            )),
        names.len() as int,
    );
    assert forall|i: int| 0 <= i < libs.len() implies steady((#[trigger] libs[i]).1) by {
        crate::order::lemma_lists(o, libs.len() as int, i);
        let q = choose|q: int| 0 <= q < o.len() && o[q] == i;
        assert(lv[q + 1] == compile::sorted_libs(libs)[q]);
        crate::readsym::lemma_steady_items(lv, q + 1);
    }
}

/// A design that was read from a sheet is such as a sheet can hold.
proof fn lemma_read_is_sheet_like(r: RoundV)
    requires
        done(r),
        sheet_like(r.des0),
    ensures
        sheet_like(read(r)),
{
    lemma_done(r);
    lemma_steady_nodes(r);
    let e = read(r);
    let d = r.des;
    readback::lemma_all_segs_reach(d.wires, d.wires.len() as int);
    let segs = group::all_segs(d.wires, d.wires.len() as int);
    assert forall|i: int| 0 <= i < e.wires.len() implies all_within_reach(#[trigger] e.wires[i]) by {
        assert(e.wires[i] == seq![segs[i].0, segs[i].1]);
        assert(readback::within_reach(segs[i].0));
    }
    assert forall|i: int| 0 <= i < e.texts.len() implies readback::readable_text(
        #[trigger] e.texts[i],
    ) && i32::MIN <= e.texts[i].rot <= i32::MAX by {
        assert(readback::readable_text(d.texts[i]));
    }
    assert forall|i: int| 0 <= i < e.labels.len() implies readback::plain_label(
        #[trigger] e.labels[i],
    ) by {
        assert(readback::plain_label(d.labels[i]));
    }
    assert forall|i: int| 0 <= i < e.extra_nodes.len() implies kept_node(
        #[trigger] e.extra_nodes[i],
    ) by {
        assert(kept_node(d.extra_nodes[i]));
        settle::lemma_reread_twice(d.extra_nodes[i]);
    }
    assert forall|i: int| 0 <= i < e.rects.len() implies readback::within_reach(
        (#[trigger] e.rects[i]).start,
    ) && readback::within_reach(e.rects[i].end) by {
        assert(readback::within_reach(d.rects[i].start));
    }
}

// ---------------------------------------------------------------- symbols in use
/// Whether a symbol that was at hand is at hand again, with the same description.
pub open spec fn same_symbols(a: RoundV, b: RoundV) -> bool {
    forall|k: Seq<char>| #[trigger]
        order_map::look(last(a).infos, k) is Some ==> order_map::look(last(b).infos, k)
            == order_map::look(last(a).infos, k)
}

/// Whether the second round starts from what the first one read.
spec fn follows(a: RoundV, b: RoundV) -> bool {
    &&& done(a)
    &&& done(b)
    &&& sheet_like(a.des0)
    &&& b.des0 == read(a)
}

#[verifier::rlimit(40)]
proof fn lemma_power_lib(a: RoundV, b: RoundV, k: int)
    requires
        follows(a, b),
        0 <= k < a.des0.power.len(),
    ensures
        symbols(b).powers[k].lib == symbols(a).powers[k].lib,
        symbols(b).powers[k].reference == symbols(a).powers[k].reference,
        symbols(b).powers[k].w == power_read(symbols(a).powers[k], a.infos),
        symbols(b).powers[k].uuid == symbols(a).powers[k].uuid,
        b.des.power[k].lib == a.des.power[k].lib,
        b.des.power[k].reference == a.des.power[k].reference,
        b.des.power[k].at == power_point(symbols(a).powers[k], a.infos),
        b.des0.power.len() == a.des0.power.len(),
{
    lemma_done(a);
    lemma_read_is_sheet_like(a);
    lemma_done(b);
    let x = symbols(a).powers[k];
    let e = read(a);
    assert(b.des0.power[k] == power_read(x, a.infos));
    let y = symbols(b).powers[k];
    let libs = last(a).libs;
    assert(roundtrip::power_found(
        x,
        a.des0.power[k],
        a.des.power[k],
        a.des,
        a.shelf,
        last(a).infos,
    ));
    assert(roundtrip::power_found(
        y,
        b.des0.power[k],
        b.des.power[k],
        b.des,
        b.shelf,
        last(b).infos,
    ));
    roundtrip::lemma_keys(libs, last(a).infos, x.lib, 0);
    assert(order_map::look(libs, x.lib) is Some);
    settle::lemma_look_by_name(libs, x.lib);
    settle::lemma_look_reread(libs_by_name(libs), x.lib);
    assert(order_map::look(e.lib_symbols, x.lib) is Some);
    assert(x.lib.len() > 0) by {
        reveal_strlit("power:");
        reveal_strlit("power:GND");
        reveal_strlit("power:VCC");
    }
    assert(b.des.lib_symbols == e.lib_symbols);
    assert(compile::power_lib_of(b.des0.power[k], b.des, b.shelf) == x.lib);
}

/// The parts of the second round are those that the first one read.
proof fn lemma_part_same(a: RoundV, b: RoundV, i: int)
    requires
        follows(a, b),
        0 <= i < a.des0.parts.len(),
    ensures
        b.des0.parts.len() == a.des0.parts.len(),
        b.des0.parts[i] == part_read(symbols(a).parts[i]),
        symbols(a).parts[i].c.p == a.des0.parts[i],
{
    lemma_done(a);
    assert(roundtrip::part_found(
        symbols(a).parts[i],
        a.des0.parts[i],
        DesignV { power: a.des0.power, ..a.des },
        last(a).infos,
    ));
}

/// What both rounds go by.
proof fn lemma_ready(a: RoundV, b: RoundV)
    requires
        follows(a, b),
    ensures
        roundtrip::on_the_way(compile::identified(a.des0, a.t.uuid), a.shelf, a.st0, a.t),
        roundtrip::on_the_way(compile::identified(b.des0, b.t.uuid), b.shelf, b.st0, b.t),
        b.des0.lib_symbols == reread_named(libs_by_name(last(a).libs)),
        order_map::keys_once(last(a).libs),
        b.des0.parts.len() == a.des0.parts.len(),
        b.des0.power.len() == a.des0.power.len(),
{
    lemma_done(a);
    lemma_read_is_sheet_like(a);
    lemma_done(b);
}

/// What one part of a trail finds, and that it stays at hand.
proof fn lemma_part_step(d: DesignV, shelf: Shelf, st0: StateV, t: TrailV, j: int)
    requires
        roundtrip::on_the_way(d, shelf, st0, t),
        0 <= j < d.parts.len(),
    ensures
        ({
            let p = d.parts[j];
            let r = compile::resolved(t.states[j], d, shelf, p.lib, p.lib_name);
            let k = compile::lib_key(p.lib, p.lib_name);
            &&& tidy(t.states[j])
            &&& t.states[j + 1].libs == r.0.libs
            &&& r.1 is Some
            &&& order_map::look(t.power_states[d.power.len() as int].libs, k) == order_map::look(
                r.0.libs,
                k,
            )
        }),
{
    let n = d.parts.len() as int;
    let v = t.nodes.take(n);
    let p = d.parts[j];
    let k = compile::lib_key(p.lib, p.lib_name);
    assert(v[j] == t.nodes[j]);
    roundtrip::lemma_part_states(st0, d, shelf, t.states, v, n, j, j);
    roundtrip::lemma_part_states(st0, d, shelf, t.states, v, n, j + 1, n);
    roundtrip::lemma_last(d, shelf, st0, t, 0);
    roundtrip::lemma_resolved(t.states[j], d, shelf, p.lib, p.lib_name);
    assert(order_map::look(t.states[j + 1].libs, k) is Some);
    assert(order_map::look(t.states[n].libs, k) is Some);
}

/// What one power symbol of a trail finds, and that it stays at hand.
proof fn lemma_power_step(d: DesignV, shelf: Shelf, st0: StateV, t: TrailV, j: int, lib: Seq<char>)
    requires
        roundtrip::on_the_way(d, shelf, st0, t),
        0 <= j < d.power.len(),
        lib == compile::power_lib_of(d.power[j], d, shelf),
    ensures
        ({
            let e = DesignV { power: t.power[j], ..d };
            let r = compile::resolved(t.power_states[j], e, shelf, lib, Seq::empty());
            &&& tidy(t.power_states[j])
            &&& t.power_states[j + 1].libs == r.0.libs
            &&& r.1 is Some
            &&& order_map::look(t.power_states[d.power.len() as int].libs, lib)
                == order_map::look(r.0.libs, lib)
        }),
{
    let n = d.parts.len() as int;
    let e = DesignV { power: t.power[j], ..d };
    assert(t.nodes.skip(n)[j] == t.nodes[n + j]);
    roundtrip::lemma_last(d, shelf, st0, t, j);
    roundtrip::lemma_last(d, shelf, st0, t, j + 1);
    assert(t.power[j][j] == d.power[j]);
    assert(compile::power_lib_of(t.power[j][j], e, shelf) == lib);
    roundtrip::lemma_resolved(t.power_states[j], e, shelf, lib, Seq::empty());
    assert(order_map::look(t.power_states[j + 1].libs, lib) is Some);
}

proof fn lemma_part_libs(a: RoundV, b: RoundV, i: int)
    requires
        follows(a, b),
        0 <= i <= a.des0.parts.len(),
    ensures
        b.t.states[i].libs == reread_named(a.t.states[i].libs),
    decreases i,
{
    lemma_ready(a, b);
    let da = compile::identified(a.des0, a.t.uuid);
    let db = compile::identified(b.des0, b.t.uuid);
    if i == 0 {
        assert(b.t.states[0].libs =~= reread_named(a.t.states[0].libs));
    } else {
        let j = i - 1;
        lemma_part_libs(a, b, j);
        lemma_part_same(a, b, j);
        let p = da.parts[j];
        assert(db.parts[j].lib == p.lib && db.parts[j].lib_name == p.lib_name);
        lemma_part_step(da, a.shelf, a.st0, a.t, j);
        lemma_part_step(db, b.shelf, b.st0, b.t, j);
        settle::lemma_same_step(
            a.t.states[j],
            b.t.states[j],
            da,
            db,
            a.shelf,
            b.shelf,
            p.lib,
            p.lib_name,
            last(a).libs,
        );
    }
}

proof fn lemma_power_libs(a: RoundV, b: RoundV, k: int)
    requires
        follows(a, b),
        0 <= k <= a.des0.power.len(),
    ensures
        b.t.power_states[k].libs == reread_named(a.t.power_states[k].libs),
    decreases k,
{
    lemma_ready(a, b);
    let da = compile::identified(a.des0, a.t.uuid);
    let db = compile::identified(b.des0, b.t.uuid);
    if k == 0 {
        lemma_part_libs(a, b, a.des0.parts.len() as int);
    } else {
        let j = k - 1;
        lemma_power_libs(a, b, j);
        let lib = symbols(a).powers[j].lib;
        lemma_power_libs_of(a, b, j);
        lemma_power_step(da, a.shelf, a.st0, a.t, j, lib);
        lemma_power_step(db, b.shelf, b.st0, b.t, j, lib);
        settle::lemma_same_step(
            a.t.power_states[j],
            b.t.power_states[j],
            DesignV { power: a.t.power[j], ..da },
            DesignV { power: b.t.power[j], ..db },
            a.shelf,
            b.shelf,
            lib,
            Seq::empty(),
            last(a).libs,
        );
    }
}

#[verifier::rlimit(40)]
proof fn lemma_power_libs_of(a: RoundV, b: RoundV, j: int)
    requires
        follows(a, b),
        0 <= j < a.des0.power.len(),
    ensures
        ({
            let lib = symbols(a).powers[j].lib;
            &&& lib == compile::power_lib_of(
                a.des0.power[j],
                compile::identified(a.des0, a.t.uuid),
                a.shelf,
            )
            &&& lib == compile::power_lib_of(
                b.des0.power[j],
                compile::identified(b.des0, b.t.uuid),
                b.shelf,
            )
        }),
{
    lemma_done(a);
    lemma_read_is_sheet_like(a);
    lemma_done(b);
    lemma_power_lib(a, b, j);
    assert(roundtrip::power_found(
        symbols(a).powers[j],
        a.des0.power[j],
        a.des.power[j],
        a.des,
        a.shelf,
        last(a).infos,
    ));
    assert(roundtrip::power_found(
        symbols(b).powers[j],
        b.des0.power[j],
        b.des.power[j],
        b.des,
        b.shelf,
        last(b).infos,
    ));
}

// ---------------------------------------------------------------- junctions
proof fn lemma_part_refs(v: compile::PinsAtV, p: PartV, q: PartV, pins: Seq<crate::symlib::Pin>, n: int)
    requires
        p.id == q.id && p.at == q.at && p.rot == q.rot && p.mirror == q.mirror,
    ensures
        compile::part_refs(v, p, pins, n) == compile::part_refs(v, q, pins, n),
    decreases n,
{
    if n > 0 {
        lemma_part_refs(v, p, q, pins, n - 1);
    }
}

/// Parts that stand alike, of the same symbols, have their pins at the same points.
proof fn lemma_same_refs(
    sa: StateV,
    da: DesignV,
    ha: Shelf,
    sb: StateV,
    db: DesignV,
    hb: Shelf,
    n: int,
)
    requires
        forall|i: int|
            0 <= i < n ==> ({
                let p = da.parts[i];
                let q = #[trigger] db.parts[i];
                let k = compile::lib_key(p.lib, p.lib_name);
                &&& p.lib == q.lib && p.lib_name == q.lib_name && p.unit == q.unit
                &&& p.id == q.id && p.at == q.at && p.rot == q.rot && p.mirror == q.mirror
                &&& order_map::look(sa.infos, k) is Some
                &&& order_map::look(sb.infos, k) == order_map::look(sa.infos, k)
            }),
    ensures
        compile::all_refs(sa, da, ha, n) == (sa, compile::all_refs(sb, db, hb, n).1),
        compile::all_refs(sb, db, hb, n).0 == sb,
    decreases n,
{
    if n > 0 {
        lemma_same_refs(sa, da, ha, sb, db, hb, n - 1);
        let p = da.parts[n - 1];
        let q = db.parts[n - 1];
        let u = order_map::look(sa.infos, compile::lib_key(p.lib, p.lib_name))->0;
        let pins = u.src.unit_spec(p.unit).pins@;
        lemma_part_refs(
            compile::all_refs(sb, db, hb, n - 1).1,
            p,
            q,
            pins,
            pins.len() as int,
        );
    }
}

proof fn lemma_power_refs(v: compile::PinsAtV, a: Seq<PowerV>, b: Seq<PowerV>, n: int)
    requires
        forall|k: int| 0 <= k < n ==> (#[trigger] b[k]).at == a[k].at && b[k].reference == a[k].reference,
    ensures
        compile::power_refs(v, a, n) == compile::power_refs(v, b, n),
    decreases n,
{
    if n > 0 {
        lemma_power_refs(v, a, b, n - 1);
        assert(b[n - 1].at == a[n - 1].at);
    }
}

spec fn seg_key(s: (Pt, Pt)) -> (compile::Key, compile::Key) {
    (compile::key_spec(s.0), compile::key_spec(s.1))
}

proof fn lemma_wire_keys(w: Seq<Pt>, n: int)
    ensures
        compile::wire_keys(w, n) == group::segs_of(w, n - 1).map_values(|s: (Pt, Pt)| seg_key(s)),
    decreases n,
{
    let f = |s: (Pt, Pt)| seg_key(s);
    if n > 1 {
        lemma_wire_keys(w, n - 1);
        assert(group::segs_of(w, n - 1).map_values(f) =~= group::segs_of(w, n - 2).map_values(
            f,
        ).push(f((w[n - 2], w[n - 1]))));
    } else {
        assert(group::segs_of(w, n - 1).map_values(f) =~= Seq::empty());
    }
}

proof fn lemma_all_keys(ws: Seq<Seq<Pt>>, n: int)
    ensures
        compile::all_keys(ws, n) == group::all_segs(ws, n).map_values(|s: (Pt, Pt)| seg_key(s)),
    decreases n,
{
    let f = |s: (Pt, Pt)| seg_key(s);
    if n > 0 {
        lemma_all_keys(ws, n - 1);
        let w = ws[n - 1];
        lemma_wire_keys(w, w.len() as int);
        let (a, b) = (group::all_segs(ws, n - 1), group::segs_of(w, w.len() - 1));
        assert((a + b).map_values(f) =~= a.map_values(f) + b.map_values(f));
    } else {
        assert(group::all_segs(ws, n).map_values(f) =~= Seq::empty());
    }
}

proof fn lemma_label_degrees(v: Seq<(compile::Key, int)>, a: Seq<LabelV>, b: Seq<LabelV>, n: int)
    requires
        forall|i: int| 0 <= i < n ==> (#[trigger] b[i]).at == a[i].at,
    ensures
        compile::label_degrees(v, a, n) == compile::label_degrees(v, b, n),
    decreases n,
{
    if n > 0 {
        lemma_label_degrees(v, a, b, n - 1);
        assert(b[n - 1].at == a[n - 1].at);
    }
}

// ---------------------------------------------------------------- twice round
/// Whether what a design leaves open is open on its sheet too: no data sheet or description is blank
/// that the symbol has, every power symbol shows a net and stands on the tenths of a micrometre that
/// sheets are written in, with its pin known where it is read, and no justification is blank without
/// being empty.
pub open spec fn at_rest(r: RoundV) -> bool {
    let s = symbols(r);
    &&& forall|i: int|
        0 <= i < s.parts.len() ==> blanks_agree(
            (#[trigger] s.parts[i]).c.p,
            s.parts[i].c.info,
        )
    &&& forall|k: int|
        0 <= k < s.powers.len() ==> {
            let x = #[trigger] s.powers[k];
            &&& compile::power_shown(x.w).len() > 0
            &&& on_tenths(x.w.at)
            &&& crate::model::on_sheet(x.w.at)
            &&& pins_agree(x.u, extract::info_for(r.infos, Seq::empty(), x.lib))
        }
    &&& forall|i: int|
        0 <= i < r.des0.labels.len() ==> (#[trigger] r.des0.labels[i]).justify.len() == 0
            || spaced(r.des0.labels[i].justify).len() > 0
}

/// Whether the pins of power symbols are known the second time too.
pub open spec fn pins_known(a: RoundV, b: RoundV) -> bool {
    forall|k: int|
        0 <= k < symbols(a).powers.len() ==> pins_agree(
            (#[trigger] symbols(a).powers[k]).u,
            extract::info_for(b.infos, Seq::empty(), symbols(a).powers[k].lib),
        )
}

#[verifier::rlimit(40)]
proof fn lemma_one_part(a: RoundV, b: RoundV, i: int)
    requires
        follows(a, b),
        same_symbols(a, b),
        at_rest(a),
        0 <= i < a.des0.parts.len(),
    ensures
        part_read(symbols(b).parts[i]) == b.des0.parts[i],
{
    lemma_done(a);
    lemma_read_is_sheet_like(a);
    lemma_done(b);
    lemma_steady_nodes(a);
    lemma_part_same(a, b, i);
    let w = symbols(a).parts[i];
    let v = symbols(b).parts[i];
    let p = a.des0.parts[i];
    assert(roundtrip::part_found(
        w,
        p,
        DesignV { power: a.des0.power, ..a.des },
        last(a).infos,
    ));
    assert(roundtrip::part_found(
        v,
        b.des0.parts[i],
        DesignV { power: b.des0.power, ..b.des },
        last(b).infos,
    ));
    let wn = choose|node: SexpV| w.places == #[trigger] crate::place_text::text_places(w.c, node);
    let vn = choose|node: SexpV| v.places == #[trigger] crate::place_text::text_places(v.c, node);
    settle::lemma_fair_turn(w.c, wn);
    crate::readsym::lemma_part_texts_readable(w, a.des.project, a.des.sheet_path_uuid);
    let k = compile::lib_key(p.lib, p.lib_name);
    assert(order_map::look(last(a).infos, k) is Some);
    assert(blanks_agree(w.c.p, w.c.info));
    settle::lemma_part_settles(w, v, vn);
}

#[verifier::rlimit(40)]
proof fn lemma_one_power(a: RoundV, b: RoundV, k: int)
    requires
        follows(a, b),
        same_symbols(a, b),
        at_rest(a),
        pins_known(a, b),
        0 <= k < a.des0.power.len(),
    ensures
        power_read(symbols(b).powers[k], b.infos) == b.des0.power[k],
        b.des.power[k].at == a.des.power[k].at,
{
    lemma_done(a);
    lemma_read_is_sheet_like(a);
    lemma_done(b);
    lemma_steady_nodes(a);
    lemma_power_lib(a, b, k);
    let x = symbols(a).powers[k];
    let y = symbols(b).powers[k];
    assert(roundtrip::power_found(
        x,
        a.des0.power[k],
        a.des.power[k],
        a.des,
        a.shelf,
        last(a).infos,
    ));
    assert(roundtrip::power_found(
        y,
        b.des0.power[k],
        b.des.power[k],
        b.des,
        b.shelf,
        last(b).infos,
    ));
    assert(order_map::look(last(a).infos, x.lib) is Some);
    assert(y.u == x.u);
    assert(pins_agree(x.u, extract::info_for(a.infos, Seq::empty(), x.lib)));
    assert(pins_agree(x.u, extract::info_for(b.infos, Seq::empty(), x.lib)));
    crate::readsym::lemma_power_text_readable(x, a.des);
    assert(0 <= crate::place_text::level(x.w.rot) < 180);
    settle::lemma_power_settles(x, y, a.infos, b.infos);
}

#[verifier::rlimit(40)]
proof fn lemma_same_junctions(a: RoundV, b: RoundV)
    requires
        follows(a, b),
        same_symbols(a, b),
        at_rest(a),
        pins_known(a, b),
    ensures
        junctions_of(b.des, b.shelf, b.t) == junctions_of(a.des, a.shelf, a.t),
{
    lemma_done(a);
    lemma_read_is_sheet_like(a);
    lemma_done(b);
    let n = a.des0.parts.len() as int;
    let m = a.des0.power.len() as int;
    let (sa, sb) = (last(a), last(b));
    assert(b.des0.parts.len() == n && b.des0.power.len() == m);
    assert forall|i: int| 0 <= i < n implies ({
        let p = a.des.parts[i];
        let q = #[trigger] b.des.parts[i];
        let k = compile::lib_key(p.lib, p.lib_name);
        &&& p.lib == q.lib && p.lib_name == q.lib_name && p.unit == q.unit
        &&& p.id == q.id && p.at == q.at && p.rot == q.rot && p.mirror == q.mirror
        &&& order_map::look(sa.infos, k) is Some
        &&& order_map::look(sb.infos, k) == order_map::look(sa.infos, k)
    }) by {
        lemma_part_same(a, b, i);
        assert(roundtrip::part_found(
            symbols(a).parts[i],
            a.des0.parts[i],
            DesignV { power: a.des0.power, ..a.des },
            sa.infos,
        ));
    }
    lemma_same_refs(sa, a.des, a.shelf, sb, b.des, b.shelf, n);
    assert forall|k: int| 0 <= k < m implies (#[trigger] b.des.power[k]).at == a.des.power[k].at
        && b.des.power[k].reference == a.des.power[k].reference by {
        lemma_power_lib(a, b, k);
        lemma_one_power(a, b, k);
    }
    lemma_power_refs(
        compile::all_refs(sa, a.des, a.shelf, n).1,
        a.des.power,
        b.des.power,
        m,
    );
    let pins = compile::pin_positions(sa, a.des, a.shelf).1;
    assert(compile::pin_positions(sb, b.des, b.shelf).1 == pins);
    settle::lemma_wires_settle(a.des, a.t.ids, b.des, b.t.ids);
    lemma_all_keys(a.des.wires, a.des.wires.len() as int);
    lemma_all_keys(b.des.wires, b.des.wires.len() as int);
    let segs = compile::all_keys(a.des.wires, a.des.wires.len() as int);
    assert(compile::all_keys(b.des.wires, b.des.wires.len() as int) == segs);
    let d = compile::pin_degrees(
        compile::seg_degrees(segs, segs.len() as int),
        pins,
        pins.len() as int,
    );
    assert(b.des.labels.len() == a.des.labels.len());
    lemma_label_degrees(d, a.des.labels, b.des.labels, a.des.labels.len() as int);
}

proof fn lemma_same_lib_symbols(a: RoundV, b: RoundV)
    requires
        follows(a, b),
    ensures
        reread_named(libs_by_name(last(b).libs)) == b.des0.lib_symbols,
{
    lemma_done(a);
    lemma_steady_nodes(a);
    lemma_power_libs(a, b, a.des0.power.len() as int);
    let libs = last(a).libs;
    assert(b.des0.power.len() == a.des0.power.len());
    assert(last(b).libs == reread_named(libs));
    settle::lemma_by_name_reread(libs);
    let v = libs_by_name(libs);
    let names = Seq::new(libs.len(), |i: int| libs[i].0);
    let counts = Seq::new(libs.len(), |i: int| 0i64);
    let o = crate::order::by_name(counts, names);
    crate::order::ranked_lists_all(
        |a: int, b: int|
            counts[a] < counts[b] || (counts[a] == counts[b] && crate::text::before(
                names[a],
                names[b],
            )),
        names.len() as int,
    );
    assert(reread_named(reread_named(v)) =~= reread_named(v)) by {
        assert forall|i: int| 0 <= i < v.len() implies #[trigger] reread_named(
            reread_named(v),
        )[i] == reread_named(v)[i] by {
            assert(0 <= o[i] < libs.len());
            assert(v[i] == libs[o[i]]);
            settle::lemma_reread_twice(libs[o[i]].1);
        }
    }
}

/// What is drawn is read again.
#[verifier::rlimit(40)]
proof fn lemma_drawn_again(a: RoundV, b: RoundV)
    requires
        follows(a, b),
        at_rest(a),
    ensures
        ({
            let x = sheet_read(
                b.des,
                last(b).libs,
                junctions_of(b.des, b.shelf, b.t),
                b.t.ids,
                symbols(b),
                b.infos,
            );
            let e = b.des0;
            &&& x.wires == e.wires
            &&& x.wire_uuids == e.wire_uuids
            &&& x.labels == e.labels
            &&& x.texts == e.texts
            &&& x.rects == e.rects
            &&& x.nc == e.nc
            &&& x.extra_nodes == e.extra_nodes
            &&& x.comments == e.comments
            &&& x.title == e.title
        }),
{
    lemma_done(a);
    lemma_read_is_sheet_like(a);
    lemma_done(b);
    lemma_steady_nodes(a);
    let e = b.des0;
    let d = a.des;
    let x = sheet_read(
        b.des,
        last(b).libs,
        junctions_of(b.des, b.shelf, b.t),
        b.t.ids,
        symbols(b),
        b.infos,
    );
    settle::lemma_wires_settle(d, a.t.ids, b.des, b.t.ids);
    assert forall|i: int| 0 <= i < e.labels.len() implies #[trigger] x.labels[i] == e.labels[i] by {
        assert(crate::ids::is_uuid(a.t.ids.labels[i]));
        assert(a.des0.labels[i] == d.labels[i]);
        settle::lemma_label_settles(d.labels[i], a.t.ids.labels[i], b.t.ids.labels[i]);
    }
    assert(x.labels =~= e.labels);
    assert forall|i: int| 0 <= i < e.texts.len() implies #[trigger] x.texts[i] == e.texts[i] by {
        assert(crate::ids::is_uuid(a.t.ids.texts[i]));
        settle::lemma_text_settles(d.texts[i], a.t.ids.texts[i], b.t.ids.texts[i]);
    }
    assert(x.texts =~= e.texts);
    assert forall|i: int| 0 <= i < e.rects.len() implies #[trigger] x.rects[i] == e.rects[i] by {
        assert(crate::ids::is_uuid(a.t.ids.rects[i]));
    }
    assert(x.rects =~= e.rects);
    assert forall|i: int| 0 <= i < e.extra_nodes.len() implies #[trigger] x.extra_nodes[i]
        == e.extra_nodes[i] by {
        settle::lemma_reread_twice(d.extra_nodes[i]);
    }
    assert(x.extra_nodes =~= e.extra_nodes);
    assert forall|i: int| 0 <= i < e.comments.len() implies #[trigger] x.comments[i]
        == e.comments[i] by {
        assert(x.comments[i] =~= e.comments[i]);
    }
    assert(x.comments =~= e.comments);
    assert(x.title =~= e.title);
}

/// Compiling the design that was read from a compiled sheet gives a sheet that reads as the same
/// design: nothing is lost, moved or renamed the second time, as long as the symbols are described
/// as they were.
#[verifier::rlimit(40)]
pub proof fn what_was_read_is_read_again(a: RoundV, b: RoundV)
    requires
        done(a),
        sheet_like(a.des0),
        at_rest(a),
        done(b),
        b.des0 == read(a),
        same_symbols(a, b),
        pins_known(a, b),
    ensures
        read(b) == read(a),
{
    lemma_done(a);
    lemma_read_is_sheet_like(a);
    lemma_done(b);
    lemma_drawn_again(a, b);
    lemma_same_junctions(a, b);
    lemma_same_lib_symbols(a, b);
    let e = read(a);
    let x = read(b);
    let n = a.des0.parts.len() as int;
    let m = a.des0.power.len() as int;
    assert forall|i: int| 0 <= i < n implies #[trigger] x.parts[i] == e.parts[i] by {
        lemma_one_part(a, b, i);
    }
    assert(x.parts =~= e.parts);
    assert forall|k: int| 0 <= k < m implies #[trigger] x.power[k] == e.power[k] by {
        lemma_one_power(a, b, k);
    }
    assert(x.power =~= e.power);
    assert(e.uuid.len() > 0);
    assert(x == e);
}

} // verus!
