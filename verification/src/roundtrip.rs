//! A design that is compiled and read again.
use crate::compile;
use crate::compile::{Shelf, StateV, TrailV, Used};
use crate::extract;
use crate::geom::Pt;
use crate::model::{DesignV, PartV, PowerV};
use crate::order_map;
use crate::order_map::OrderMap;
use crate::place_text;
use crate::readback::{
    a_written_sheet_shows_its_design, all_within_reach, libs_named, sheet_like, sheet_read, steady,
    symbol_nodes, SymbolsV,
};
use crate::readsym::{
    part_written, plain_part, power_written, WrittenPart, WrittenPower,
};
use crate::sexp;
use crate::sexp::SexpV;
use crate::symlib::SymbolInfo;
use std::sync::Arc;
use vstd::prelude::*;

verus! {

// ---------------------------------------------------------------- symbols at hand
/// Whether each symbol is kept under the name that its node bears.
pub open spec fn well_named(libs: Seq<(Seq<char>, SexpV)>) -> bool {
    forall|i: int|
        0 <= i < libs.len() ==> sexp::is_tagged((#[trigger] libs[i]).1, "symbol"@)
            && extract::text_of(Some(libs[i].1)) == libs[i].0
}

/// Whether every symbol that is embedded is described, and none occurs twice.
pub open spec fn tidy(st: StateV) -> bool {
    &&& order_map::keys_once(st.libs)
    &&& well_named(st.libs)
    &&& st.libs.len() == st.infos.len()
    &&& forall|i: int| 0 <= i < st.libs.len() ==> (#[trigger] st.libs[i]).0 == st.infos[i].0
}

/// Whether what was at hand before still is.
pub open spec fn grown(a: StateV, b: StateV) -> bool {
    &&& forall|k: Seq<char>| #[trigger]
        order_map::look(a.libs, k) is Some ==> order_map::look(b.libs, k) == order_map::look(
            a.libs,
            k,
        )
    &&& forall|k: Seq<char>| #[trigger]
        order_map::look(a.infos, k) is Some ==> order_map::look(b.infos, k) == order_map::look(
            a.infos,
            k,
        )
}

pub(crate) proof fn lemma_keys<A, B>(a: Seq<(Seq<char>, A)>, b: Seq<(Seq<char>, B)>, k: Seq<char>, i: int)
    requires
        a.len() == b.len(),
        forall|j: int| 0 <= j < a.len() ==> (#[trigger] a[j]).0 == b[j].0,
    ensures
        order_map::seek(a, k, i) == order_map::seek(b, k, i),
    decreases a.len() - i,
{
    if 0 <= i < a.len() {
        assert(a[i].0 == b[i].0);
        lemma_keys(a, b, k, i + 1);
    }
}

pub(crate) proof fn lemma_look<V>(m: Seq<(Seq<char>, V)>, k: Seq<char>)
    ensures
        order_map::look(m, k) is None ==> order_map::seek(m, k, 0) == m.len(),
        forall|v: V| order_map::look(m, k) is None ==> #[trigger] order_map::put(m, k, v) == m.push((k, v)),
        forall|v: V|
            order_map::look(m, k) is None ==> #[trigger] order_map::look(m.push((k, v)), k)
                == Some(v),
{
    order_map::lemma_seek(m, k, 0);
    assert forall|v: V| order_map::look(m, k) is None implies #[trigger] order_map::look(
        m.push((k, v)),
        k,
    ) == Some(v) by {
        order_map::put_then_look(m, k, v);
    }
}

/// What looking up a symbol leaves behind.
#[verifier::rlimit(40)]
pub(crate) proof fn lemma_resolved(st: StateV, des: DesignV, shelf: Shelf, lib: Seq<char>, name: Seq<char>)
    requires
        tidy(st),
        well_named(des.lib_symbols),
        well_named(sexp::named_v(shelf.stock@)),
    ensures
        ({
            let r = compile::resolved(st, des, shelf, lib, name);
            let k = compile::lib_key(lib, name);
            &&& tidy(r.0)
            &&& grown(st, r.0)
            &&& r.1 is Some ==> order_map::look(r.0.infos, k) == r.1 && order_map::look(
                r.0.libs,
                k,
            ) is Some
        }),
{
    let r = compile::resolved(st, des, shelf, lib, name);
    let k = compile::lib_key(lib, name);
    lemma_keys(st.libs, st.infos, k, 0);
    lemma_look(st.libs, k);
    lemma_look(st.infos, k);
    if order_map::look(st.infos, k) is None {
        if let Some((n, u)) = compile::find_symbol(des, shelf, lib, k) {
            order_map::put_then_look(st.infos, k, u);
            order_map::put_then_look(st.libs, k, n);
            order_map::putting_keeps_keys_once(st.libs, k, n);
            assert(r.0.libs == st.libs.push((k, n)));
            assert(sexp::is_tagged(n, "symbol"@) && extract::text_of(Some(n)) == k) by {
                order_map::lemma_seek(des.lib_symbols, k, 0);
                order_map::lemma_seek(sexp::named_v(shelf.stock@), k, 0);
                let i = order_map::seek(des.lib_symbols, k, 0);
                let j = order_map::seek(sexp::named_v(shelf.stock@), k, 0);
                if i < des.lib_symbols.len() {
                    assert(des.lib_symbols[i].1 == n);
                } else {
                    assert(sexp::named_v(shelf.stock@)[j].1 == n);
                }
            }
        }
    }
}

// ---------------------------------------------------------------- on the way to a sheet
/// Parts one by one: what is at hand grows.
#[verifier::rlimit(40)]
pub(crate) proof fn lemma_part_states(
    st0: StateV,
    des: DesignV,
    shelf: Shelf,
    t: Seq<StateV>,
    nodes: Seq<Option<SexpV>>,
    n: int,
    i: int,
    j: int,
)
    requires
        compile::parts_done(st0, des, shelf, t, nodes, n),
        0 <= i <= j <= n,
        n <= des.parts.len(),
        tidy(st0),
        well_named(des.lib_symbols),
        well_named(sexp::named_v(shelf.stock@)),
    ensures
        tidy(t[j]),
        grown(t[i], t[j]),
        j < n ==> ({
            let p = des.parts[j];
            let r = compile::resolved(t[j], des, shelf, p.lib, p.lib_name);
            &&& t[j + 1].libs == r.0.libs
            &&& t[j + 1].infos == r.0.infos
            &&& nodes[j] is Some ==> r.1 is Some && order_map::look(
                r.0.libs,
                compile::lib_key(p.lib, p.lib_name),
            ) is Some
        }),
    decreases j,
{
    if j > 0 {
        if i == j {
            lemma_part_states(st0, des, shelf, t, nodes, n, j - 1, j - 1);
        } else {
            lemma_part_states(st0, des, shelf, t, nodes, n, i, j - 1);
        }
        let p = des.parts[j - 1];
        assert(compile::emitted(t[j - 1], des, shelf, p, t[j], nodes[j - 1]));
        lemma_resolved(t[j - 1], des, shelf, p.lib, p.lib_name);
    }
    if j < n {
        let p = des.parts[j];
        assert(compile::emitted(t[j], des, shelf, p, t[j + 1], nodes[j]));
    }
}

/// Power symbols one by one: what is at hand grows, and the list is filled in from the front.
#[verifier::rlimit(40)]
proof fn lemma_power_states(
    st0: StateV,
    des: DesignV,
    shelf: Shelf,
    t: Seq<StateV>,
    power: Seq<Seq<PowerV>>,
    nodes: Seq<Option<SexpV>>,
    n: int,
    i: int,
    j: int,
)
    requires
        compile::power_done(st0, des, shelf, t, power, nodes, n),
        0 <= i <= j <= n,
        n == des.power.len(),
        tidy(st0),
        well_named(des.lib_symbols),
        well_named(sexp::named_v(shelf.stock@)),
        forall|k: int| 0 <= k < n ==> (#[trigger] nodes[k]) is Some,
    ensures
        tidy(t[j]),
        grown(t[i], t[j]),
        power[j].len() == n,
        forall|k: int| j <= k < n ==> #[trigger] power[j][k] == des.power[k],
        forall|k: int| 0 <= k < i ==> #[trigger] power[j][k] == power[i][k],
    decreases j,
{
    if j > 0 {
        if i == j {
            lemma_power_states(st0, des, shelf, t, power, nodes, n, j - 1, j - 1);
        } else {
            lemma_power_states(st0, des, shelf, t, power, nodes, n, i, j - 1);
        }
        let d = DesignV { power: power[j - 1], ..des };
        assert(nodes[j - 1] is Some);
        assert(compile::power_emitted(
            t[j - 1],
            d,
            shelf,
            j - 1,
            compile::numbering(des.power, j).n,
            t[j],
            power[j],
            nodes[j - 1],
        ));
        let w = power[j - 1][j - 1];
        lemma_resolved(t[j - 1], d, shelf, compile::power_lib_of(w, d, shelf), Seq::empty());
    }
}

/// The part of a trail that was written for a part of the design.
#[verifier::opaque]
pub open spec fn part_from(t: TrailV, des: DesignV, shelf: Shelf, i: int) -> WrittenPart {
    let p = des.parts[i];
    let rs = compile::resolved(t.states[i], des, shelf, p.lib, p.lib_name);
    let libnode = order_map::look(rs.0.libs, compile::lib_key(p.lib, p.lib_name))->0;
    let c = compile::part_ctx(des, p, rs.1->0);
    let w = choose|uuid: Seq<char>, ids: Seq<Seq<char>>| #[trigger]
        compile::written(c, des, libnode, t.nodes[i]->0, uuid, ids);
    WrittenPart { c, places: place_text::text_places(c, libnode), uuid: w.0, pins: w.1 }
}

/// The power symbol of a trail that was written for one of the design.
#[verifier::opaque]
pub open spec fn power_from(t: TrailV, des: DesignV, shelf: Shelf, k: int) -> WrittenPower {
    let d = DesignV { power: t.power[k], ..des };
    let w = d.power[k];
    let lib = compile::power_lib_of(w, d, shelf);
    let rs = compile::resolved(t.power_states[k], d, shelf, lib, Seq::empty());
    let reference = compile::if_empty(
        w.reference,
        compile::power_ref(compile::numbering(des.power, k + 1).n),
    );
    let libnode = order_map::look(rs.0.libs, lib)->0;
    let u = rs.1->0;
    let node = t.nodes[des.parts.len() + k]->0;
    let ids = choose|uuid: Seq<char>, pin: Seq<char>|
        (if w.uuid.len() > 0 {
            uuid == w.uuid
        } else {
            crate::ids::is_uuid(uuid)
        }) && crate::ids::is_uuid(pin) && node == #[trigger] compile::power_node(
            w,
            u,
            lib,
            reference,
            libnode,
            d,
            uuid,
            pin,
        );
    WrittenPower { w, u, lib, reference, libnode, uuid: ids.0, pin: ids.1 }
}

/// Whether a part was written from a design: the part itself, with its texts where they are placed,
/// under its own identifier where it has one.
pub open spec fn part_stems(w: WrittenPart, p: PartV, des: DesignV, u: Used) -> bool {
    &&& w.c == compile::part_ctx(des, p, u)
    &&& exists|node: SexpV| w.places == #[trigger] place_text::text_places(w.c, node)
    &&& if p.uuid.len() > 0 {
        w.uuid == p.uuid
    } else {
        crate::ids::is_uuid(w.uuid)
    }
}

/// Whether a power symbol was written from a design: the power symbol itself, with the symbol and
/// the reference that are noted for it, under its own identifier where it has one.
pub open spec fn power_stems(x: WrittenPower, w: PowerV, noted: PowerV, u: Used) -> bool {
    &&& x.w == w
    &&& x.u == u
    &&& x.lib == noted.lib
    &&& x.reference == noted.reference
    &&& noted == (PowerV { lib: x.lib, reference: x.reference, ..w })
    &&& x.reference.len() > 0
    &&& w.reference.len() > 0 ==> x.reference == w.reference
    &&& if w.uuid.len() > 0 {
        x.uuid == w.uuid
    } else {
        crate::ids::is_uuid(x.uuid)
    }
}

/// The symbols of a compiled sheet.
pub open spec fn symbols_from(t: TrailV, des: DesignV, shelf: Shelf) -> SymbolsV {
    SymbolsV {
        parts: Seq::new(des.parts.len(), |i: int| part_from(t, des, shelf, i)),
        powers: Seq::new(des.power.len(), |k: int| power_from(t, des, shelf, k)),
    }
}

/// Whether a part was written from a design by the symbol at hand.
pub open spec fn part_found(w: WrittenPart, p: PartV, des: DesignV, infos: Seq<(Seq<char>, Used)>) -> bool {
    let u = order_map::look(infos, compile::lib_key(p.lib, p.lib_name));
    u is Some && part_stems(w, p, des, u->0)
}

/// Whether a power symbol was written from a design by the symbol at hand.
pub open spec fn power_found(
    x: WrittenPower,
    w: PowerV,
    noted: PowerV,
    des: DesignV,
    shelf: Shelf,
    infos: Seq<(Seq<char>, Used)>,
) -> bool {
    let u = order_map::look(infos, noted.lib);
    u is Some && power_stems(x, w, noted, u->0) && x.lib == compile::power_lib_of(w, des, shelf)
}

/// Whether the symbols of a compiled sheet stem from its design.
pub open spec fn all_stem(
    s: SymbolsV,
    des0: DesignV,
    des: DesignV,
    shelf: Shelf,
    infos: Seq<(Seq<char>, Used)>,
) -> bool {
    &&& s.parts.len() == des0.parts.len()
    &&& s.powers.len() == des0.power.len()
    &&& des.power.len() == des0.power.len()
    &&& forall|i: int|
        0 <= i < s.parts.len() ==> part_found(
            #[trigger] s.parts[i],
            des0.parts[i],
            DesignV { power: des0.power, ..des },
            infos,
        )
    &&& forall|k: int|
        0 <= k < s.powers.len() ==> power_found(
            #[trigger] s.powers[k],
            des0.power[k],
            des.power[k],
            des,
            shelf,
            infos,
        )
}

proof fn lemma_part_from(t: TrailV, des: DesignV, shelf: Shelf, i: int)
    requires
        0 <= i < des.parts.len(),
        t.nodes[i] is Some,
        compile::emitted(t.states[i], des, shelf, des.parts[i], t.states[i + 1], t.nodes[i]),
    ensures
        ({
            let p = des.parts[i];
            let u = compile::resolved(t.states[i], des, shelf, p.lib, p.lib_name).1;
            u is Some && part_stems(part_from(t, des, shelf, i), p, des, u->0)
        }),
        t.nodes[i] == Some(
            part_written(part_from(t, des, shelf, i), des.project, des.sheet_path_uuid),
        ),
{
    reveal(part_from);
    let p = des.parts[i];
    let rs = compile::resolved(t.states[i], des, shelf, p.lib, p.lib_name);
    let libnode = order_map::look(rs.0.libs, compile::lib_key(p.lib, p.lib_name))->0;
    let c = compile::part_ctx(des, p, rs.1->0);
    assert(compile::written_somehow(c, des, libnode, t.nodes[i]->0));
    let w = part_from(t, des, shelf, i);
    assert(w.places == place_text::text_places(w.c, libnode));
}

proof fn lemma_power_from(t: TrailV, des: DesignV, shelf: Shelf, k: int)
    requires
        0 <= k < des.power.len(),
        t.power[k].len() == des.power.len(),
        t.power[k][k] == des.power[k],
        t.nodes[des.parts.len() + k] is Some,
        compile::power_emitted(
            t.power_states[k],
            DesignV { power: t.power[k], ..des },
            shelf,
            k,
            compile::numbering(des.power, k + 1).n,
            t.power_states[k + 1],
            t.power[k + 1],
            t.nodes[des.parts.len() + k],
        ),
    ensures
        ({
            let x = power_from(t, des, shelf, k);
            let d = DesignV { power: t.power[k], ..des };
            let u = compile::resolved(t.power_states[k], d, shelf, x.lib, Seq::empty()).1;
            &&& u is Some
            &&& x.lib == compile::power_lib_of(des.power[k], d, shelf)
            &&& power_stems(x, des.power[k], t.power[k + 1][k], u->0)
            &&& t.nodes[des.parts.len() + k] == Some(power_written(x, des))
        }),
{
    reveal(power_from);
    let d = DesignV { power: t.power[k], ..des };
    let w = d.power[k];
    let lib = compile::power_lib_of(w, d, shelf);
    let rs = compile::resolved(t.power_states[k], d, shelf, lib, Seq::empty());
    let reference = compile::if_empty(
        w.reference,
        compile::power_ref(compile::numbering(des.power, k + 1).n),
    );
    let libnode = order_map::look(rs.0.libs, lib)->0;
    let node = t.nodes[des.parts.len() + k]->0;
    assert(compile::power_written(w, rs.1->0, lib, reference, libnode, d, node));
    assert(compile::power_ref(compile::numbering(des.power, k + 1).n).len() > 0) by {
        reveal_strlit("#PWR");
    }
    let x = power_from(t, des, shelf, k);
    assert(node == compile::power_node(w, x.u, lib, reference, libnode, d, x.uuid, x.pin));
}

proof fn lemma_all_present(v: Seq<Option<SexpV>>)
    requires
        forall|i: int| 0 <= i < v.len() ==> (#[trigger] v[i]) is Some,
    ensures
        compile::present(v) == Seq::new(v.len(), |i: int| v[i]->0),
    decreases v.len(),
{
    let w = v.drop_last();
    if v.len() > 0 {
        assert forall|i: int| 0 <= i < w.len() implies (#[trigger] w[i]) is Some by {
            assert(w[i] == v[i]);
        }
        lemma_all_present(w);
        assert(v.last() is Some);
    }
    assert(compile::present(v) =~= Seq::new(v.len(), |i: int| v[i]->0));
}

/// What is needed of a design and the symbols at hand for the sheet to be told: every symbol is
/// found, and kept under its name.
pub open spec fn all_found(des0: DesignV, shelf: Shelf, st0: StateV, t: TrailV) -> bool {
    &&& tidy(st0)
    &&& well_named(des0.lib_symbols)
    &&& well_named(sexp::named_v(shelf.stock@))
    &&& forall|i: int| 0 <= i < t.nodes.len() ==> (#[trigger] t.nodes[i]) is Some
}

spec fn part_known(t: TrailV, d1: DesignV, shelf: Shelf, last: StateV, i: int) -> bool {
    let p = d1.parts[i];
    let u = order_map::look(last.infos, compile::lib_key(p.lib, p.lib_name));
    let w = part_from(t, d1, shelf, i);
    &&& u is Some && part_stems(w, p, d1, u->0)
    &&& t.nodes[i] == Some(part_written(w, d1.project, d1.sheet_path_uuid))
}

pub(crate) open spec fn power_known(t: TrailV, d1: DesignV, shelf: Shelf, last: StateV, k: int) -> bool {
    let x = power_from(t, d1, shelf, k);
    let noted = t.power[d1.power.len() as int][k];
    let u = order_map::look(last.infos, noted.lib);
    &&& u is Some && power_stems(x, d1.power[k], noted, u->0)
    &&& x.lib == compile::power_lib_of(d1.power[k], d1, shelf)
    &&& t.nodes[d1.parts.len() + k] == Some(power_written(x, d1))
}

/// What is known of the way to a sheet, the identifiers of the design filled in.
pub(crate) open spec fn on_the_way(d1: DesignV, shelf: Shelf, st0: StateV, t: TrailV) -> bool {
    let n = d1.parts.len() as int;
    let m = d1.power.len() as int;
    &&& all_found(d1, shelf, st0, t)
    &&& t.nodes.len() == n + m
    &&& compile::parts_done(st0, d1, shelf, t.states, t.nodes.take(n), n)
    &&& compile::power_done(t.states[n], d1, shelf, t.power_states, t.power, t.nodes.skip(n), m)
}

pub(crate) proof fn lemma_last(d1: DesignV, shelf: Shelf, st0: StateV, t: TrailV, k: int)
    requires
        on_the_way(d1, shelf, st0, t),
        0 <= k <= d1.power.len(),
    ensures
        tidy(t.states[d1.parts.len() as int]),
        tidy(t.power_states[k]),
        grown(t.states[d1.parts.len() as int], t.power_states[d1.power.len() as int]),
        grown(t.power_states[k], t.power_states[d1.power.len() as int]),
        tidy(t.power_states[d1.power.len() as int]),
        t.power[d1.power.len() as int].len() == d1.power.len(),
        t.power[k].len() == d1.power.len(),
        forall|j: int| k <= j < d1.power.len() ==> #[trigger] t.power[k][j] == d1.power[j],
        forall|j: int|
            0 <= j < k ==> #[trigger] t.power[d1.power.len() as int][j] == t.power[k][j],
{
    let n = d1.parts.len() as int;
    let m = d1.power.len() as int;
    let pn = t.nodes.skip(n);
    assert forall|k: int| 0 <= k < m implies (#[trigger] pn[k]) is Some by {
        assert(pn[k] == t.nodes[n + k]);
    }
    lemma_part_states(st0, d1, shelf, t.states, t.nodes.take(n), n, n, n);
    lemma_power_states(t.states[n], d1, shelf, t.power_states, t.power, pn, m, 0, m);
    lemma_power_states(t.states[n], d1, shelf, t.power_states, t.power, pn, m, k, k);
    lemma_power_states(t.states[n], d1, shelf, t.power_states, t.power, pn, m, k, m);
}

#[verifier::rlimit(40)]
proof fn lemma_part_known(d1: DesignV, shelf: Shelf, st0: StateV, t: TrailV, i: int)
    requires
        on_the_way(d1, shelf, st0, t),
        0 <= i < d1.parts.len(),
    ensures
        part_known(t, d1, shelf, t.power_states[d1.power.len() as int], i),
{
    let n = d1.parts.len() as int;
    let p = d1.parts[i];
    let last = t.power_states[d1.power.len() as int];
    let nodes = t.nodes;
    assert(nodes.take(n)[i] == nodes[i]);
    assert(compile::emitted(t.states[i], d1, shelf, p, t.states[i + 1], nodes[i]));
    lemma_part_from(t, d1, shelf, i);
    lemma_part_states(st0, d1, shelf, t.states, nodes.take(n), n, i, i);
    lemma_part_states(st0, d1, shelf, t.states, nodes.take(n), n, i + 1, n);
    lemma_resolved(t.states[i], d1, shelf, p.lib, p.lib_name);
    lemma_last(d1, shelf, st0, t, 0);
    let k = compile::lib_key(p.lib, p.lib_name);
    assert(order_map::look(t.states[i + 1].infos, k) is Some);
    assert(order_map::look(t.states[n].infos, k) is Some);
    assert(order_map::look(last.infos, k) is Some);
}

#[verifier::rlimit(40)]
pub(crate) proof fn lemma_power_known(d1: DesignV, shelf: Shelf, st0: StateV, t: TrailV, k: int)
    requires
        on_the_way(d1, shelf, st0, t),
        0 <= k < d1.power.len(),
    ensures
        power_known(t, d1, shelf, t.power_states[d1.power.len() as int], k),
{
    let n = d1.parts.len() as int;
    let m = d1.power.len() as int;
    let pn = t.nodes.skip(n);
    assert(pn[k] == t.nodes[n + k]);
    lemma_last(d1, shelf, st0, t, k);
    lemma_last(d1, shelf, st0, t, k + 1);
    lemma_power_from(t, d1, shelf, k);
    let d = DesignV { power: t.power[k], ..d1 };
    let x = power_from(t, d1, shelf, k);
    lemma_resolved(t.power_states[k], d, shelf, x.lib, Seq::empty());
    assert(t.power[m][k] == t.power[k + 1][k]);
    assert(order_map::look(t.power_states[k + 1].infos, x.lib) is Some);
}

/// The nodes of a trail are those of its symbols.
#[verifier::rlimit(40)]
proof fn lemma_nodes(d1: DesignV, shelf: Shelf, st0: StateV, t: TrailV)
    requires
        on_the_way(d1, shelf, st0, t),
    ensures
        compile::present(t.nodes) == symbol_nodes(symbols_from(t, d1, shelf), d1),
{
    let s = symbols_from(t, d1, shelf);
    let n = d1.parts.len() as int;
    let nodes = t.nodes;
    lemma_all_present(nodes);
    let sn = symbol_nodes(s, d1);
    assert forall|i: int| 0 <= i < nodes.len() implies nodes[i]->0 == #[trigger] sn[i] by {
        if i < n {
            lemma_part_known(d1, shelf, st0, t, i);
            assert(s.parts[i] == part_from(t, d1, shelf, i));
        } else {
            lemma_power_known(d1, shelf, st0, t, i - n);
            assert(s.powers[i - n] == power_from(t, d1, shelf, i - n));
        }
    }
    assert(compile::present(nodes) =~= sn);
}

/// The symbols of a compiled sheet stem from its design, and are all that stands on it.
#[verifier::rlimit(40)]
pub proof fn lemma_trail(
    des0: DesignV,
    shelf: Shelf,
    st0: StateV,
    t: TrailV,
    des: DesignV,
    st: StateV,
    out: Seq<char>,
)
    requires
        compile::compiled(des0, shelf, st0, t, des, st, out),
        all_found(des0, shelf, st0, t),
    ensures
        ({
            let m = des0.power.len() as int;
            let d1 = compile::identified(des0, t.uuid);
            let s = symbols_from(t, d1, shelf);
            &&& all_stem(s, des0, des, shelf, t.power_states[m].infos)
            &&& compile::present(t.nodes) == symbol_nodes(s, des)
            &&& tidy(t.power_states[m])
        }),
{
    let n = des0.parts.len() as int;
    let m = des0.power.len() as int;
    let d1 = compile::identified(des0, t.uuid);
    let s = symbols_from(t, d1, shelf);
    let last = t.power_states[m];
    assert(on_the_way(d1, shelf, st0, t));
    lemma_last(d1, shelf, st0, t, 0);
    lemma_nodes(d1, shelf, st0, t);
    assert(DesignV { power: des0.power, ..des } == d1);
    assert forall|i: int| 0 <= i < s.parts.len() implies part_found(
        #[trigger] s.parts[i],
        des0.parts[i],
        DesignV { power: des0.power, ..des },
        last.infos,
    ) by {
        lemma_part_known(d1, shelf, st0, t, i);
    }
    assert forall|k: int| 0 <= k < s.powers.len() implies power_found(
        #[trigger] s.powers[k],
        des0.power[k],
        des.power[k],
        des,
        shelf,
        last.infos,
    ) by {
        lemma_power_known(d1, shelf, st0, t, k);
    }
    assert(all_stem(s, des0, des, shelf, last.infos));
    let (a, b) = (symbol_nodes(s, des), symbol_nodes(s, d1));
    assert forall|i: int| 0 <= i < a.len() implies #[trigger] a[i] == b[i] by {
        if i >= n {
            let x = s.powers[i - n];
            assert(power_written(x, des) == power_written(x, d1));
        }
    }
    assert(a =~= b);
}

/// Where the junctions of a compiled sheet are drawn.
pub open spec fn junctions_of(des: DesignV, shelf: Shelf, t: TrailV) -> Seq<Pt> {
    compile::junctions_spec(
        des,
        compile::pin_positions(t.power_states[des.power.len() as int], des, shelf).1,
    )
}

/// The node that a compiled design is written as.
pub open spec fn sheet_of(des: DesignV, shelf: Shelf, t: TrailV) -> SexpV {
    compile::sheet_spec(
        des,
        t.power_states[des.power.len() as int].libs,
        junctions_of(des, shelf, t),
        compile::present(t.nodes),
        t.ids,
    )
}

/// Whether a power symbol can be told from a part.
pub open spec fn power_told(w: PowerV, infos: OrderMap<Arc<SymbolInfo>>) -> bool {
    &&& i32::MIN <= w.rot <= i32::MAX
    &&& extract::is_power_symbol(extract::info_for(infos, Seq::empty(), w.lib), w.lib, w.reference)
}

/// Whether parts and power symbols can be told apart where a sheet is read.
pub open spec fn all_told(des: DesignV, infos: OrderMap<Arc<SymbolInfo>>) -> bool {
    &&& forall|i: int| 0 <= i < des.parts.len() ==> plain_part(#[trigger] des.parts[i], infos)
    &&& forall|k: int| 0 <= k < des.power.len() ==> power_told(#[trigger] des.power[k], infos)
}

/// A design that is compiled and read again is the same design: what is drawn, the parts with their
/// fields and the power symbols, under their own identifiers where they have them, the title block,
/// the symbols in use and the nodes that are kept as they stand. Nothing else is read.
#[verifier::rlimit(40)]
pub proof fn a_compiled_design_reads_back(
    des0: DesignV,
    shelf: Shelf,
    st0: StateV,
    t: TrailV,
    des: DesignV,
    st: StateV,
    out: Seq<char>,
    infos: OrderMap<Arc<SymbolInfo>>,
) -> (s: SymbolsV)
    requires
        compile::compiled(des0, shelf, st0, t, des, st, out),
        all_found(des0, shelf, st0, t),
        sheet_like(des0),
        all_within_reach(junctions_of(des, shelf, t)),
        steady(sheet_of(des, shelf, t)),
        all_told(des, infos),
    ensures
        s == symbols_from(t, compile::identified(des0, t.uuid), shelf),
        all_stem(s, des0, des, shelf, t.power_states[des0.power.len() as int].infos),
        sexp::loaded(out) is Some,
        extract::design_of(sexp::loaded(out)->0, infos) == sheet_read(
            des,
            t.power_states[des0.power.len() as int].libs,
            junctions_of(des, shelf, t),
            t.ids,
            s,
            infos,
        ),
        des == (DesignV { power: des.power, ..compile::identified(des0, t.uuid) }),
{
    let m = des0.power.len() as int;
    let d1 = compile::identified(des0, t.uuid);
    lemma_trail(des0, shelf, st0, t, des, st, out);
    let s = symbols_from(t, d1, shelf);
    assert forall|i: int| 0 <= i < s.parts.len() implies plain_part(
        (#[trigger] s.parts[i]).c.p,
        infos,
    ) by {
        assert(plain_part(des.parts[i], infos));
    }
    assert forall|k: int| 0 <= k < s.powers.len() implies crate::readsym::plain_power(
        #[trigger] s.powers[k],
        infos,
    ) by {
        assert(power_told(des.power[k], infos));
    }
    assert(des.sheet_path_uuid.len() > 0) by {
        reveal_strlit("/");
    }
    assert(libs_named(t.power_states[m].libs));
    assert(sheet_like(des));
    a_written_sheet_shows_its_design(
        des,
        t.power_states[m].libs,
        junctions_of(des, shelf, t),
        t.ids,
        s,
        infos,
    );
    s
}

} // verus!
