//! What is read of symbols that were written: the same parts and power symbols.
use crate::compile;
use crate::compile::Used;
use crate::extract;
use crate::geo;
use crate::geom::Pt;
use crate::json;
use crate::json::JsonV;
use crate::model::{AnchorV, DesignV, PartV, PowerV};
use crate::number;
use crate::order_map;
use crate::order_map::OrderMap;
use crate::place_text;
use crate::place_text::{AtV, PairV, TextCtx};
use crate::readback::{
    lemma_child_at, lemma_no_child, lemma_place, lemma_tags, steady, within_reach,
};
use crate::sexp;
use crate::sexp::SexpV;
use crate::symlib;
use crate::symlib::SymbolInfo;
use crate::text;
use std::sync::Arc;
use vstd::prelude::*;

verus! {

// ---------------------------------------------------------------- texts
/// A justification as it is read: its words, one space apart.
pub open spec fn spaced(justify: Seq<char>) -> Seq<char> {
    text::joined(geo::words_from(justify, 0, Seq::empty()), " "@)
}

/// The justification of a written text is read word by word.
#[verifier::rlimit(40)]
pub proof fn lemma_spaced(size: int, bold: bool, hide: bool, justify: Seq<char>)
    ensures
        extract::justify_of(Some(compile::font_spec(size, bold, hide, justify))) == spaced(justify),
{
    lemma_tags();
    let e = compile::font_spec(size, bold, hide, justify);
    let v = sexp::items_of(e);
    let words = geo::words_from(justify, 0, Seq::empty());
    assert(sexp::is_tagged(v[1], "font"@));
    if justify.len() == 0 {
        if hide {
            assert(v.len() == 3);
            assert(v[2] == compile::tagged("hide"@, seq![SexpV::Sym("yes"@)]));
        } else {
            assert(v.len() == 2);
        }
        lemma_no_child(v, "justify"@);
        assert(words =~= Seq::empty());
    } else {
        assert(v[2] == compile::tagged("justify"@, compile::syms(words)));
        lemma_child_at(v, "justify"@, 2);
        let j = v[2];
        let w = sexp::items_of(j);
        assert(w.skip(1) =~= compile::syms(words));
        assert(extract::texts_from(w.skip(1)) =~= words);
    }
}

/// Where a text can be read.
pub open spec fn readable_at(a: AtV) -> bool {
    &&& -900_000_000_000_000 <= a.x <= 900_000_000_000_000
    &&& -900_000_000_000_000 <= a.y <= 900_000_000_000_000
    &&& -9_000_000_000 <= a.rot <= 9_000_000_000
}

/// The anchor of a text as it is read.
pub open spec fn anchor_read(a: AtV) -> AnchorV {
    AnchorV {
        at: Pt { x: a.x as i64, y: a.y as i64 },
        rest: seq![JsonV::Int(a.rot), JsonV::Str(spaced(a.justify))],
    }
}

#[verifier::rlimit(40)]
proof fn lemma_property(n: SexpV, name: Seq<char>, value: Seq<char>, a: AtV, hide: bool)
    requires
        sexp::prop_of(n, name) == Some(compile::property_spec(name, value, a, hide)),
        readable_at(a),
    ensures
        sexp::prop_text(n, name) == Some(value),
        extract::prop_pos(n, name) == (Some(anchor_read(a)), hide),
{
    lemma_tags();
    let p = compile::property_spec(name, value, a, hide);
    let v = sexp::items_of(p);
    assert(v.len() == 5);
    assert(v[2] == SexpV::Str(value));
    assert(v[3] == compile::tagged(
        "at"@,
        seq![compile::mm(a.x), compile::mm(a.y), compile::whole_num(a.rot)],
    ));
    assert(v[4] == compile::font_spec(127_000, false, hide, a.justify));
    lemma_child_at(v, "at"@, 3);
    lemma_child_at(v, "effects"@, 4);
    let w = sexp::items_of(v[3]);
    assert(w[1] == compile::mm(a.x) && w[2] == compile::mm(a.y) && w[3] == compile::whole_num(
        a.rot,
    ));
    lemma_spaced(127_000, false, hide, a.justify);
    lemma_hidden(127_000, false, hide, a.justify);
    assert(extract::prop_pos(n, name).0->0.rest =~= anchor_read(a).rest);
}

/// Whether a text is hidden is read as it was written.
proof fn lemma_hidden(size: int, bold: bool, hide: bool, justify: Seq<char>)
    ensures
        ({
            let h = sexp::child_of(compile::font_spec(size, bold, hide, justify), "hide"@);
            (h is Some && extract::text_of(h) == "yes"@) == hide
        }),
{
    lemma_tags();
    let e = compile::font_spec(size, bold, hide, justify);
    let w = sexp::items_of(e);
    let k = if justify.len() == 0 {
        2int
    } else {
        3
    };
    if hide {
        assert(w.len() == k + 1);
        assert(w[k] == compile::tagged("hide"@, seq![SexpV::Sym("yes"@)]));
        lemma_child_at(w, "hide"@, k);
        assert(sexp::items_of(w[k])[1] == SexpV::Sym("yes"@));
    } else {
        assert(w.len() == k);
        lemma_no_child(w, "hide"@);
    }
}

// ---------------------------------------------------------------- symbols in general
spec fn tail_tag(t: Seq<char>) -> bool {
    t == "property"@ || t == "pin"@ || t == "instances"@
}

proof fn lemma_prop_at(v: Seq<SexpV>, name: Seq<char>, i: int, j: int)
    requires
        0 <= i <= j < v.len(),
        sexp::is_prop(v[j], name),
        forall|k: int| i <= k < j ==> !sexp::is_prop(#[trigger] v[k], name),
    ensures
        sexp::seek_prop(v, name, i) == j,
    decreases j - i,
{
    if i < j {
        lemma_prop_at(v, name, i + 1, j);
    }
}

/// Sheet and project of an instance: those that were read first.
pub open spec fn seen_at(st: extract::InstV, project: Seq<char>, path: Seq<char>, r: Seq<char>) -> extract::InstV {
    if st.path.len() == 0 {
        extract::InstV { reference: r, path, project }
    } else {
        extract::InstV { reference: r, ..st }
    }
}

/// What the instance data of a written symbol tell.
#[verifier::rlimit(40)]
proof fn lemma_instances(
    st: extract::InstV,
    project: Seq<char>,
    path: Seq<char>,
    r: Seq<char>,
    unit: int,
)
    ensures
        ({
            let i = compile::instances_spec(project, path, r, unit);
            let projs = sexp::children_of(i, "project"@);
            extract::with_projects(st, projs, projs.len() as int) == seen_at(st, project, path, r)
        }),
{
    lemma_tags();
    reveal_strlit("reference");
    reveal_strlit("unit");
    let i = compile::instances_spec(project, path, r, unit);
    let v = sexp::items_of(i);
    reveal_with_fuel(sexp::tagged, 4);
    assert(sexp::children_of(i, "project"@) =~= seq![v[1]]);
    let w = sexp::items_of(v[1]);
    assert(w.len() == 3);
    assert(sexp::children_of(v[1], "path"@) =~= seq![w[2]]);
    let u = sexp::items_of(w[2]);
    assert(u.len() == 4);
    lemma_child_at(u, "reference"@, 2);
    assert(sexp::items_of(u[2])[1] == SexpV::Str(r));
    assert(u[1] == SexpV::Str(path));
    assert(w[1] == SexpV::Str(project));
    reveal_with_fuel(extract::with_projects, 2);
    reveal_with_fuel(extract::with_paths, 2);
}

/// The node of a symbol: its head, its flags, and what follows.
spec fn symbol_node(p: PartV, unit: int, dnp: bool, uuid: Seq<char>, tail: Seq<SexpV>) -> SexpV {
    SexpV::List(compile::part_head(p) + compile::part_flags(unit, dnp, uuid) + tail)
}

/// The two texts that every symbol shows, and its footprint.
struct Shown {
    r: AtV,
    r_hide: bool,
    value: Seq<char>,
    v: AtV,
    v_hide: bool,
    foot: Seq<char>,
}

spec fn follows(p: PartV, unit: int, s: Shown, project: Seq<char>, path: Seq<char>, tail: Seq<SexpV>) -> bool {
    &&& tail.len() >= 4
    &&& tail[0] == compile::property_spec("Reference"@, p.id, s.r, s.r_hide)
    &&& tail[1] == compile::property_spec("Value"@, s.value, s.v, s.v_hide)
    &&& tail[2] == compile::hidden_spec("Footprint"@, s.foot, p.at)
    &&& tail.last() == compile::instances_spec(project, path, p.id, unit)
    &&& forall|i: int|
        0 <= i < tail.len() - 1 ==> tail_tag(sexp::tag_of(#[trigger] tail[i])) && sexp::tag_of(
            tail[i],
        ) != "instances"@
}

#[verifier::spinoff_prover]
#[verifier::rlimit(60)]
proof fn lemma_symbol_head(p: PartV, unit: int, dnp: bool, uuid: Seq<char>, tail: Seq<SexpV>)
    requires
        within_reach(p.at),
        i32::MIN <= p.rot <= i32::MAX,
        i32::MIN <= unit <= i32::MAX,
        forall|i: int| 0 <= i < tail.len() ==> tail_tag(sexp::tag_of(#[trigger] tail[i])),
    ensures
        ({
            let n = symbol_node(p, unit, dnp, uuid, tail);
            let d = sexp::child_of(n, "dnp"@);
            &&& sexp::is_tagged(n, "symbol"@)
            &&& extract::text_of(sexp::child_of(n, "lib_id"@)) == p.lib
            &&& extract::text_of(sexp::child_of(n, "lib_name"@)) == p.lib_name
            &&& extract::text_of(sexp::child_of(n, "mirror"@)) == p.mirror
            &&& extract::text_of(sexp::child_of(n, "uuid"@)) == uuid
            &&& extract::at_of(sexp::child_of(n, "at"@)) == (p.at, p.rot)
            &&& extract::unit_of(n) == unit
            &&& (d is Some && extract::text_of(d) == "yes"@) == dnp
        }),
{
    lemma_tags();
    let n = symbol_node(p, unit, dnp, uuid, tail);
    let v = sexp::items_of(n);
    let hd = compile::part_head(p);
    let f = compile::part_flags(unit, dnp, uuid);
    let h = hd.len() as int;
    let l = if p.lib_name.len() == 0 {
        2int
    } else {
        3
    };
    assert forall|i: int| 0 <= i < h implies #[trigger] v[i] == hd[i] by {
    }
    assert forall|i: int| 0 <= i < 6 implies #[trigger] v[h + i] == f[i] by {
    }
    assert forall|i: int| h + 6 <= i < v.len() implies tail_tag(sexp::tag_of(#[trigger] v[i])) by {
        assert(v[i] == tail[i - h - 6]);
    }
    assert(v[0] == SexpV::Sym("symbol"@));
    assert(v[1] == compile::tagged("lib_id"@, seq![SexpV::Str(p.lib)]));
    lemma_child_at(v, "lib_id"@, 1);
    assert(sexp::items_of(v[1])[1] == SexpV::Str(p.lib));
    assert(v[l] == compile::place_spec(p.at, p.rot));
    if l == 3 {
        assert(v[2] == compile::tagged("lib_name"@, seq![SexpV::Str(p.lib_name)]));
        lemma_child_at(v, "lib_name"@, 2);
        assert(sexp::items_of(v[2])[1] == SexpV::Str(p.lib_name));
    }
    if p.mirror.len() > 0 {
        assert(v[l + 1] == compile::flag_spec("mirror"@, p.mirror));
        assert(sexp::items_of(v[l + 1])[1] == SexpV::Sym(p.mirror));
    }
    lemma_child_at(v, "at"@, l);
    lemma_place(p.at, p.rot);
    assert(v[h + 0] == f[0]);
    assert(v[h + 0] == v[h]);
    assert forall|j: int| h <= j < h + 6 implies sexp::tag_of(#[trigger] v[j]) != "lib_name"@
        && sexp::tag_of(v[j]) != "mirror"@ by {
        assert(v[h + (j - h)] == f[j - h]);
    }
    if l == 2 {
        lemma_no_child(v, "lib_name"@);
        assert(p.lib_name =~= Seq::empty());
    }
    if p.mirror.len() > 0 {
        lemma_child_at(v, "mirror"@, l + 1);
    } else {
        lemma_no_child(v, "mirror"@);
        assert(p.mirror =~= Seq::empty());
    }
    assert(v[h + 0] == compile::tagged("unit"@, seq![compile::whole_num(unit)]));
    lemma_child_at(v, "unit"@, h);
    assert(sexp::items_of(v[h])[1] == compile::whole_num(unit));
    assert(v[h + 1] == compile::flag_spec("exclude_from_sim"@, "no"@));
    assert(v[h + 2] == compile::flag_spec("in_bom"@, "yes"@));
    assert(v[h + 3] == compile::flag_spec("on_board"@, "yes"@));
    let yn = if dnp { "yes"@ } else { "no"@ };
    assert(v[h + 4] == compile::flag_spec("dnp"@, yn));
    lemma_child_at(v, "dnp"@, h + 4);
    assert(sexp::items_of(v[h + 4])[1] == SexpV::Sym(yn));
    reveal_strlit("yes");
    reveal_strlit("no");
    assert("yes"@.len() == 3 && "no"@.len() == 2);
    assert(v[h + 5] == compile::uuid_spec(uuid));
    lemma_child_at(v, "uuid"@, h + 5);
    assert(sexp::items_of(v[h + 5])[1] == SexpV::Str(uuid));
    assert(extract::unit_of(n) == unit);
}

#[verifier::spinoff_prover]
#[verifier::rlimit(60)]
proof fn lemma_symbol_tail(
    des: DesignV,
    p: PartV,
    unit: int,
    dnp: bool,
    uuid: Seq<char>,
    s: Shown,
    project: Seq<char>,
    path: Seq<char>,
    tail: Seq<SexpV>,
)
    requires
        readable_at(s.r),
        readable_at(s.v),
        within_reach(p.at),
        follows(p, unit, s, project, path, tail),
    ensures
        ({
            let n = symbol_node(p, unit, dnp, uuid, tail);
            let st = extract::InstV {
                reference: p.id,
                path: des.sheet_path_uuid,
                project: des.project,
            };
            &&& sexp::prop_text(n, "Value"@) == Some(s.value)
            &&& extract::prop_pos(n, "Value"@) == (Some(anchor_read(s.v)), s.v_hide)
            &&& extract::prop_pos(n, "Reference"@).0 == Some(anchor_read(s.r))
            &&& sexp::prop_text(n, "Footprint"@) == Some(s.foot)
            &&& extract::instance_of(des, n) == seen_at(st, project, path, p.id)
            &&& sexp::children_of(n, "property"@) == sexp::tagged(
                seq![SexpV::Int(0)] + tail,
                "property"@,
                tail.len() as int + 1,
            )
        }),
{
    lemma_tags();
    let n = symbol_node(p, unit, dnp, uuid, tail);
    let v = sexp::items_of(n);
    let hd = compile::part_head(p);
    let f = compile::part_flags(unit, dnp, uuid);
    let h = hd.len() as int;
    assert(v.len() == h + 6 + tail.len());
    assert forall|i: int| 0 <= i < h implies #[trigger] v[i] == hd[i] by {
    }
    assert forall|i: int| 0 <= i < tail.len() implies #[trigger] v[h + 6 + i] == tail[i] by {
    }
    assert forall|j: int| 1 <= j < h + 6 implies sexp::tag_of(#[trigger] v[j]) != "property"@
        && sexp::tag_of(v[j]) != "instances"@ by {
        if j < h {
            assert(v[j] == hd[j]);
        } else {
            assert(v[j] == f[j - h]);
        }
    }
    assert(v[h + 6 + 0] == tail[0] && v[h + 6 + 1] == tail[1] && v[h + 6 + 2] == tail[2]);
    assert(sexp::items_of(tail[0])[1] == SexpV::Str("Reference"@));
    assert(sexp::items_of(tail[1])[1] == SexpV::Str("Value"@));
    assert(sexp::items_of(tail[2])[1] == SexpV::Str("Footprint"@));
    lemma_prop_at(v, "Reference"@, 1, h + 6);
    lemma_prop_at(v, "Value"@, 1, h + 7);
    lemma_prop_at(v, "Footprint"@, 1, h + 8);
    lemma_property(n, "Reference"@, p.id, s.r, s.r_hide);
    lemma_property(n, "Value"@, s.value, s.v, s.v_hide);
    let a = AtV { x: p.at.x as int, y: p.at.y as int, rot: 0, justify: Seq::empty() };
    lemma_property(n, "Footprint"@, s.foot, a, true);
    assert forall|j: int| 1 <= j < v.len() - 1 implies sexp::tag_of(#[trigger] v[j])
        != "instances"@ by {
        if j >= h + 6 {
            assert(v[j] == tail[j - h - 6]);
        }
    }
    assert(v.last() == tail.last());
    lemma_child_at(v, "instances"@, v.len() - 1);
    let st = extract::InstV {
        reference: p.id,
        path: des.sheet_path_uuid,
        project: des.project,
    };
    lemma_instances(st, project, path, p.id, unit);
    lemma_none_tagged(v, "property"@, 1, h + 6);
    lemma_tagged_behind(v, seq![SexpV::Int(0)] + tail, "property"@, h + 6, tail.len() as int);
}

proof fn lemma_none_tagged(v: Seq<SexpV>, tag: Seq<char>, a: int, b: int)
    requires
        1 <= a <= b <= v.len(),
        forall|i: int| a <= i < b ==> sexp::tag_of(#[trigger] v[i]) != tag,
    ensures
        sexp::tagged(v, tag, b) == sexp::tagged(v, tag, a),
    decreases b - a,
{
    if a < b {
        lemma_none_tagged(v, tag, a, b - 1);
        assert(sexp::tag_of(v[b - 1]) != tag);
    }
}

/// What stands behind a part without a tag is all that has the tag.
proof fn lemma_tagged_behind(v: Seq<SexpV>, w: Seq<SexpV>, tag: Seq<char>, a: int, n: int)
    requires
        1 <= a,
        0 <= n,
        a + n <= v.len(),
        n + 1 <= w.len(),
        sexp::tagged(v, tag, a) == Seq::<SexpV>::empty(),
        forall|i: int| 0 <= i < n ==> #[trigger] v[a + i] == w[i + 1],
    ensures
        sexp::tagged(v, tag, a + n) == sexp::tagged(w, tag, n + 1),
    decreases n,
{
    if n > 0 {
        lemma_tagged_behind(v, w, tag, a, n - 1);
        assert(v[a + (n - 1)] == w[n]);
    }
}

// ---------------------------------------------------------------- fields
/// A list of fields with one more, where it is one that is kept.
pub open spec fn noted(m: Seq<(Seq<char>, JsonV)>, k: Seq<char>, t: Seq<char>) -> Seq<
    (Seq<char>, JsonV),
> {
    if extract::is_field(k, t) {
        order_map::put(m, k, JsonV::Str(t))
    } else {
        m
    }
}

/// The text that a field is written as.
pub open spec fn field_shown(v: JsonV) -> Seq<char> {
    compile::text_or(json::str_in(v), json::text_of(v))
}

pub open spec fn datasheet_shown(p: PartV, info: SymbolInfo) -> Seq<char> {
    compile::text_or(
        compile::field_text(p, "Datasheet"@),
        compile::if_empty(info.datasheet@, "~"@),
    )
}

pub open spec fn description_shown(p: PartV, info: SymbolInfo) -> Seq<char> {
    compile::text_or(compile::field_text(p, "Description"@), info.description@)
}

/// Whether a field has a place of its own among the properties of a part.
pub open spec fn has_place(k: Seq<char>) -> bool {
    k == "Datasheet"@ || k == "Description"@
}

/// The fields after the first `n` of a part's have been noted.
pub open spec fn fields_after(
    fields: Seq<(Seq<char>, JsonV)>,
    m: Seq<(Seq<char>, JsonV)>,
    n: int,
) -> Seq<(Seq<char>, JsonV)>
    decreases n,
{
    if n <= 0 {
        m
    } else {
        let before = fields_after(fields, m, n - 1);
        let (k, v) = fields[n - 1];
        if has_place(k) {
            before
        } else {
            noted(before, k, field_shown(v))
        }
    }
}

/// Data sheet and description, where there are any.
pub open spec fn first_fields(p: PartV, info: SymbolInfo) -> Seq<(Seq<char>, JsonV)> {
    noted(
        noted(Seq::empty(), "Datasheet"@, datasheet_shown(p, info)),
        "Description"@,
        description_shown(p, info),
    )
}

/// The fields of a part as they are read: data sheet and description first, then its own in their
/// order, each with the text that it was written as. Blank ones are not read.
pub open spec fn fields_read(p: PartV, info: SymbolInfo) -> Seq<(Seq<char>, JsonV)> {
    fields_after(p.fields, first_fields(p, info), p.fields.len() as int)
}

/// A field with a text is read with that text, under the name that it has.
pub proof fn fields_come_back(p: PartV, info: SymbolInfo, j: int)
    requires
        0 <= j < p.fields.len(),
        order_map::keys_once(p.fields),
        has_place(p.fields[j].0) ==> json::str_in(p.fields[j].1) is Some,
        extract::is_field(p.fields[j].0, field_shown(p.fields[j].1)),
    ensures
        order_map::look(fields_read(p, info), p.fields[j].0) == Some(
            JsonV::Str(field_shown(p.fields[j].1)),
        ),
{
    let (k, v) = p.fields[j];
    lemma_tags();
    lemma_fields_kept(p.fields, first_fields(p, info), k, p.fields.len() as int, j);
    if has_place(k) {
        order_map::lemma_seek(p.fields, k, 0);
        let i = order_map::seek(p.fields, k, 0);
        assert(i == j) by {
            if i < j {
                assert(p.fields[i].0 != p.fields[j].0);
            }
        }
        let d = noted(Seq::empty(), "Datasheet"@, datasheet_shown(p, info));
        if extract::is_field("Datasheet"@, datasheet_shown(p, info)) {
            order_map::put_then_look(
                Seq::<(Seq<char>, JsonV)>::empty(),
                "Datasheet"@,
                JsonV::Str(datasheet_shown(p, info)),
            );
        }
        if extract::is_field("Description"@, description_shown(p, info)) {
            order_map::put_then_look(d, "Description"@, JsonV::Str(description_shown(p, info)));
        }
    }
}

proof fn lemma_fields_kept(
    fields: Seq<(Seq<char>, JsonV)>,
    m: Seq<(Seq<char>, JsonV)>,
    k: Seq<char>,
    n: int,
    j: int,
)
    requires
        0 <= j < fields.len(),
        n <= fields.len(),
        order_map::keys_once(fields),
        fields[j].0 == k,
        extract::is_field(k, field_shown(fields[j].1)),
    ensures
        order_map::look(fields_after(fields, m, n), k) == (if n > j && !has_place(k) {
            Some(JsonV::Str(field_shown(fields[j].1)))
        } else {
            order_map::look(m, k)
        }),
    decreases n,
{
    if n > 0 {
        lemma_fields_kept(fields, m, k, n - 1, j);
        let before = fields_after(fields, m, n - 1);
        let (q, v) = fields[n - 1];
        if n - 1 < j {
            assert(fields[n - 1].0 != fields[j].0);
        } else if n - 1 > j {
            assert(fields[j].0 != fields[n - 1].0);
        }
        order_map::put_then_look(before, q, JsonV::Str(field_shown(v)));
    }
}

proof fn lemma_fields_prefix(a: Seq<SexpV>, b: Seq<SexpV>, n: int)
    requires
        n <= a.len(),
        n <= b.len(),
        forall|i: int| 0 <= i < n ==> #[trigger] a[i] == b[i],
    ensures
        extract::fields_of(a, n) == extract::fields_of(b, n),
    decreases n,
{
    if n > 0 {
        lemma_fields_prefix(a, b, n - 1);
        assert(a[n - 1] == b[n - 1]);
    }
}

proof fn lemma_prop_texts(name: Seq<char>, value: Seq<char>, a: AtV, hide: bool)
    ensures
        extract::text_of(Some(compile::property_spec(name, value, a, hide))) == name,
        extract::text_at(Some(compile::property_spec(name, value, a, hide)), 2) == value,
        sexp::is_tagged(compile::property_spec(name, value, a, hide), "property"@),
{
    let v = sexp::items_of(compile::property_spec(name, value, a, hide));
    assert(v.len() == 5);
    assert(v[1] == SexpV::Str(name) && v[2] == SexpV::Str(value));
}

#[verifier::rlimit(40)]
proof fn lemma_fields_read(p: PartV, info: SymbolInfo, a: PairV, n: int)
    requires
        0 <= n <= p.fields.len(),
    ensures
        ({
            let props = compile::part_props(p, info, a) + compile::extra_props(p, n);
            extract::fields_of(props, props.len() as int) == fields_after(
                p.fields,
                first_fields(p, info),
                n,
            )
        }),
        forall|i: int|
            0 <= i < compile::extra_props(p, n).len() ==> sexp::is_tagged(
                #[trigger] compile::extra_props(p, n)[i],
                "property"@,
            ),
    decreases n,
{
    lemma_tags();
    let r = compile::part_props(p, info, a);
    let e = compile::extra_props(p, n);
    let props = r + e;
    let at = AtV { x: p.at.x as int, y: p.at.y as int, rot: 0, justify: Seq::empty() };
    if n == 0 {
        assert(props =~= r);
        lemma_prop_texts("Reference"@, p.id, a.r, false);
        lemma_prop_texts("Value"@, compile::shown_value(p, info), a.v, p.hide_value);
        lemma_prop_texts(
            "Footprint"@,
            compile::if_empty(p.footprint, info.footprint@),
            at,
            true,
        );
        lemma_prop_texts("Datasheet"@, datasheet_shown(p, info), at, true);
        lemma_prop_texts("Description"@, description_shown(p, info), at, true);
        assert(extract::fields_of(r, 0) =~= Seq::empty());
        assert(extract::fields_of(r, 1) == extract::fields_of(r, 0));
        assert(extract::fields_of(r, 2) == extract::fields_of(r, 1));
        assert(extract::fields_of(r, 3) == extract::fields_of(r, 2));
        lemma_no_prefix();
        assert(extract::fields_of(r, 4) == noted(
            extract::fields_of(r, 3),
            "Datasheet"@,
            datasheet_shown(p, info),
        ));
        assert(extract::fields_of(r, 5) == noted(
            extract::fields_of(r, 4),
            "Description"@,
            description_shown(p, info),
        ));
    } else {
        lemma_fields_read(p, info, a, n - 1);
        let e0 = compile::extra_props(p, n - 1);
        let (k, v) = p.fields[n - 1];
        if has_place(k) {
            assert(e == e0);
        } else {
            let x = compile::hidden_spec(k, field_shown(v), p.at);
            assert(e == e0.push(x));
            lemma_prop_texts(k, field_shown(v), at, true);
            lemma_fields_prefix(props, r + e0, 5 + e0.len() as int);
            assert(props.last() == x);
            assert forall|i: int| 0 <= i < e.len() implies sexp::is_tagged(
                #[trigger] e[i],
                "property"@,
            ) by {
                if i < e0.len() {
                    assert(e[i] == e0[i]);
                }
            }
        }
    }
}

proof fn lemma_no_prefix()
    ensures
        !text::starts("Datasheet"@, "ki_"@),
        !text::starts("Description"@, "ki_"@),
{
    reveal_strlit("ki_");
    reveal_strlit("Datasheet");
    reveal_strlit("Description");
    if text::starts("Datasheet"@, "ki_"@) {
        assert("Datasheet"@.take(3)[0] == 'D');
        assert("Datasheet"@[0] == 'D');
    }
    if text::starts("Description"@, "ki_"@) {
        assert("Description"@.take(3)[0] == 'D');
        assert("Description"@[0] == 'D');
    }
}

// ---------------------------------------------------------------- parts
/// A part as it is written: what it is written by, where its texts stand, its identifier and those
/// of its pins.
pub struct WrittenPart {
    pub c: TextCtx,
    pub places: PairV,
    pub uuid: Seq<char>,
    pub pins: Seq<Seq<char>>,
}

/// The node of a part as it is written.
pub open spec fn part_written(w: WrittenPart, project: Seq<char>, path: Seq<char>) -> SexpV {
    compile::part_node(w.c, project, path, w.places, w.uuid, w.pins)
}

/// A part as it is read: with the value and the footprint that are shown, its texts where they
/// stand, and under the identifier that it bears on the sheet.
pub open spec fn part_read(w: WrittenPart) -> PartV {
    let p = w.c.p;
    PartV {
        value: compile::shown_value(p, w.c.info),
        footprint: compile::if_empty(p.footprint, w.c.info.footprint@),
        fields: fields_read(p, w.c.info),
        ref_at: Some(anchor_read(w.places.r)),
        val_at: Some(anchor_read(w.places.v)),
        uuid: w.uuid,
        ..p
    }
}

/// Whether a part can be told from a power symbol and stands where it can be read.
pub open spec fn plain_part(p: PartV, infos: OrderMap<Arc<SymbolInfo>>) -> bool {
    &&& within_reach(p.at)
    &&& i32::MIN <= p.rot <= i32::MAX
    &&& i32::MIN <= p.unit <= i32::MAX
    &&& !extract::is_power_symbol(extract::info_for(infos, p.lib_name, p.lib), p.lib, p.id)
}

/// A design on a sheet: the first sheet and project that are met stay.
pub open spec fn found_on(des: DesignV, project: Seq<char>, path: Seq<char>) -> DesignV {
    if des.sheet_path_uuid.len() == 0 {
        DesignV { sheet_path_uuid: path, project, ..des }
    } else {
        des
    }
}

proof fn lemma_steady_at(tail: Seq<SexpV>, i: int, name: Seq<char>, value: Seq<char>, a: AtV, hide: bool)
    requires
        0 <= i < tail.len(),
        tail[i] == compile::property_spec(name, value, a, hide),
        steady(tail[i]),
    ensures
        readable_at(a),
{
    let v = sexp::items_of(tail[i]);
    assert(tail[i] == SexpV::List(v));
    assert(v[3] == compile::tagged(
        "at"@,
        seq![compile::mm(a.x), compile::mm(a.y), compile::whole_num(a.rot)],
    ));
    assert(steady(v[3]));
    let w = sexp::items_of(v[3]);
    assert(v[3] == SexpV::List(w));
    assert(w[1] == compile::mm(a.x) && w[2] == compile::mm(a.y) && w[3] == compile::whole_num(
        a.rot,
    ));
    assert(steady(w[1]) && steady(w[2]) && steady(w[3]));
}

pub proof fn lemma_steady_items(v: Seq<SexpV>, i: int)
    requires
        steady(SexpV::List(v)),
        0 <= i < v.len(),
    ensures
        steady(v[i]),
{
    let n = SexpV::List(v);
    let w = n->List_0;
    assert(steady(w[i]));
}

/// The texts of a written part stand where they can be read.
pub proof fn lemma_part_texts_readable(w: WrittenPart, project: Seq<char>, path: Seq<char>)
    requires
        steady(part_written(w, project, path)),
    ensures
        readable_at(w.places.r),
        readable_at(w.places.v),
{
    let p = w.c.p;
    let n = part_written(w, project, path);
    let v = sexp::items_of(n);
    let h = compile::part_head(p).len() as int;
    let r = compile::part_props(p, w.c.info, w.places);
    assert(v[h + 6] == r[0] && v[h + 7] == r[1]);
    lemma_steady_items(v, h + 6);
    lemma_steady_items(v, h + 7);
    lemma_steady_at(r, 0, "Reference"@, p.id, w.places.r, false);
    lemma_steady_at(
        r,
        1,
        "Value"@,
        compile::shown_value(p, w.c.info),
        w.places.v,
        p.hide_value,
    );
}

/// The value of a written power symbol stands where it can be read.
pub proof fn lemma_power_text_readable(x: WrittenPower, on: DesignV)
    requires
        steady(power_written(x, on)),
    ensures
        readable_at(compile::power_value_at(x.w, power_seen(x), x.libnode)),
{
    let p = power_seen(x);
    let v = sexp::items_of(power_written(x, on));
    let h = compile::part_head(p).len() as int;
    let a = compile::power_value_at(x.w, p, x.libnode);
    let hide = x.w.hide_value;
    assert(v[h + 7] == compile::property_spec("Value"@, compile::power_shown(x.w), a, hide));
    lemma_steady_items(v, h + 7);
    lemma_steady_at(v, h + 7, "Value"@, compile::power_shown(x.w), a, hide);
}

/// A part is read as it was written.
#[verifier::spinoff_prover]
#[verifier::rlimit(60)]
pub proof fn lemma_part_node(
    des: DesignV,
    infos: OrderMap<Arc<SymbolInfo>>,
    w: WrittenPart,
    project: Seq<char>,
    path: Seq<char>,
)
    requires
        plain_part(w.c.p, infos),
        steady(part_written(w, project, path)),
    ensures
        sexp::is_tagged(part_written(w, project, path), "symbol"@),
        extract::with_node(des, part_written(w, project, path), infos) == found_on(
            DesignV { parts: des.parts.push(part_read(w)), ..des },
            project,
            path,
        ),
{
    lemma_tags();
    let c = w.c;
    let p = c.p;
    let n = part_written(w, project, path);
    let r = compile::part_props(p, c.info, w.places);
    let e = compile::extra_props(p, p.fields.len() as int);
    let pins = compile::pin_nodes(c.pins(), w.pins);
    let i = compile::instances_spec(project, path, p.id, p.unit);
    let tail = r + e + pins + seq![i];
    assert(sexp::items_of(n) =~= compile::part_head(p) + compile::part_flags(p.unit, p.dnp, w.uuid)
        + tail);
    assert(n == symbol_node(p, p.unit, p.dnp, w.uuid, tail));
    lemma_fields_read(p, c.info, w.places, p.fields.len() as int);
    let s = Shown {
        r: w.places.r,
        r_hide: false,
        value: compile::shown_value(p, c.info),
        v: w.places.v,
        v_hide: p.hide_value,
        foot: compile::if_empty(p.footprint, c.info.footprint@),
    };
    let h = compile::part_head(p).len() as int;
    let v = sexp::items_of(n);
    assert(tail[0] == r[0] && tail[1] == r[1] && tail[2] == r[2]);
    assert(v[h + 6] == tail[0] && v[h + 7] == tail[1]);
    lemma_steady_items(v, h + 6);
    lemma_steady_items(v, h + 7);
    lemma_steady_at(tail, 0, "Reference"@, p.id, s.r, false);
    lemma_steady_at(tail, 1, "Value"@, s.value, s.v, p.hide_value);
    assert forall|j: int| 0 <= j < tail.len() implies tail_tag(sexp::tag_of(#[trigger] tail[j]))
        && (j < tail.len() - 1 ==> sexp::tag_of(tail[j]) != "instances"@) by {
        if j < 5 {
            assert(tail[j] == r[j]);
        } else if j < 5 + e.len() {
            assert(tail[j] == e[j - 5]);
            assert(sexp::is_tagged(e[j - 5], "property"@));
        } else if j < 5 + e.len() + pins.len() {
            assert(tail[j] == pins[j - 5 - e.len()]);
        }
    }
    assert(tail.last() == i);
    lemma_symbol_head(p, p.unit, p.dnp, w.uuid, tail);
    lemma_symbol_tail(des, p, p.unit, p.dnp, w.uuid, s, project, path, tail);
    let t = seq![SexpV::Int(0)] + tail;
    let m = 5 + e.len() as int;
    assert forall|j: int| 1 <= j < m + 1 implies sexp::is_tagged(#[trigger] t[j], "property"@) by {
        assert(t[j] == tail[j - 1]);
        if j - 1 < 5 {
            assert(tail[j - 1] == r[j - 1]);
        } else {
            assert(tail[j - 1] == e[j - 6]);
        }
    }
    lemma_all_tagged(t, "property"@, m + 1);
    assert forall|j: int| m + 1 <= j < t.len() implies sexp::tag_of(#[trigger] t[j])
        != "property"@ by {
        assert(t[j] == tail[j - 1]);
        if j < t.len() - 1 {
            assert(tail[j - 1] == pins[j - 1 - m]);
        }
    }
    lemma_none_tagged(t, "property"@, m + 1, t.len() as int);
    assert(t.subrange(1, m + 1) =~= r + e);
    assert(sexp::children_of(n, "property"@) == r + e);
    let d = extract::with_symbol(des, n, infos);
    let q = part_read(w);
    assert(d.parts =~= des.parts.push(q));
}

proof fn lemma_all_tagged(v: Seq<SexpV>, tag: Seq<char>, n: int)
    requires
        1 <= n <= v.len(),
        forall|i: int| 1 <= i < n ==> sexp::is_tagged(#[trigger] v[i], tag),
    ensures
        sexp::tagged(v, tag, n) == v.subrange(1, n),
    decreases n,
{
    if n > 1 {
        lemma_all_tagged(v, tag, n - 1);
        assert(sexp::is_tagged(v[n - 1], tag));
        assert(v.subrange(1, n) =~= v.subrange(1, n - 1).push(v[n - 1]));
    } else {
        assert(v.subrange(1, 1) =~= Seq::empty());
    }
}

// ---------------------------------------------------------------- power symbols
/// A power symbol as it is written: itself, the symbol that it uses, its reference, and identifiers
/// for it and its pin.
pub struct WrittenPower {
    pub w: PowerV,
    pub u: Used,
    pub lib: Seq<char>,
    pub reference: Seq<char>,
    pub libnode: SexpV,
    pub uuid: Seq<char>,
    pub pin: Seq<char>,
}

/// The node of a power symbol as it is written.
pub open spec fn power_written(x: WrittenPower, des: DesignV) -> SexpV {
    compile::power_node(x.w, x.u, x.lib, x.reference, x.libnode, des, x.uuid, x.pin)
}

/// The power symbol seen as a part.
pub open spec fn power_seen(x: WrittenPower) -> PartV {
    compile::power_part(x.w, x.lib, x.reference, compile::power_origin(x.w, x.u))
}

/// Where a power symbol is read to connect.
pub open spec fn power_point(x: WrittenPower, infos: OrderMap<Arc<SymbolInfo>>) -> Pt {
    let info = extract::info_for(infos, Seq::empty(), x.lib);
    let (px, py) = extract::pin_offset(info, x.w.rot, x.w.mirror);
    let at = power_seen(x).at;
    Pt {
        x: number::rounded(at.x + px, 10) as i64,
        y: number::rounded(at.y + py, 10) as i64,
    }
}

/// A power symbol as it is read: its net is the value that it shows.
pub open spec fn power_read(x: WrittenPower, infos: OrderMap<Arc<SymbolInfo>>) -> PowerV {
    let shown = compile::power_shown(x.w);
    PowerV {
        net: if shown.len() == 0 {
            extract::behind_colon(x.lib)
        } else {
            shown
        },
        at: power_point(x, infos),
        rot: x.w.rot,
        lib: x.lib,
        reference: x.reference,
        uuid: x.uuid,
        value: shown,
        val_at: Some(
            anchor_read(compile::power_value_at(x.w, power_seen(x), x.libnode)),
        ),
        hide_value: x.w.hide_value,
        mirror: x.w.mirror,
    }
}

/// Whether a power symbol can be told from a part.
pub open spec fn plain_power(x: WrittenPower, infos: OrderMap<Arc<SymbolInfo>>) -> bool {
    &&& i32::MIN <= x.w.rot <= i32::MAX
    &&& extract::is_power_symbol(
        extract::info_for(infos, Seq::empty(), x.lib),
        x.lib,
        x.reference,
    )
}

/// Whether a point is a whole number of tenths of a micrometre from the origin.
pub open spec fn on_tenths(p: Pt) -> bool {
    p.x as int % 10 == 0 && p.y as int % 10 == 0
}

proof fn lemma_rounded(v: int)
    requires
        v % 10 == 0,
    ensures
        number::rounded(v, 10) == v,
{
    let a = crate::geom::mag(v);
    assert(a % 10 == 0);
    assert((a / 10) * 10 == a);
}

/// A power symbol is read to connect where it does, as long as its pin is known where it is read.
#[verifier::spinoff_prover]
#[verifier::rlimit(60)]
pub proof fn power_symbols_keep_their_point(
    x: WrittenPower,
    infos: OrderMap<Arc<SymbolInfo>>,
    info: Arc<SymbolInfo>,
)
    requires
        on_tenths(x.w.at),
        crate::model::on_sheet(x.w.at),
        x.u.src.wf(),
        extract::info_for(infos, Seq::empty(), x.lib) == Some(info),
        info.pins@.len() == x.u.src.pins@.len(),
        info.pins@.len() > 0 ==> info.pins@[0].x == x.u.src.pins@[0].x && info.pins@[0].y
            == x.u.src.pins@[0].y,
    ensures
        power_point(x, infos) == x.w.at,
{
    let (px, py) = extract::pin_offset(Some(info), x.w.rot, x.w.mirror);
    if info.pins@.len() > 0 {
        let m = symlib::mirror_spec(x.w.mirror);
        let pin = x.u.src.pins@[0];
        assert(symlib::pin_ok(pin));
        symlib::lemma_turned(pin.x as int, pin.y as int, x.w.rot, m);
        lemma_turned_tenths(pin.x as int, pin.y as int, x.w.rot, m);
    }
    assert(px % 10 == 0 && py % 10 == 0);
    assert((x.w.at.x - px) % 10 == 0);
    assert((x.w.at.y - py) % 10 == 0);
    lemma_rounded(x.w.at.x - px);
    lemma_rounded(x.w.at.y - py);
    lemma_rounded(x.w.at.x as int);
    lemma_rounded(x.w.at.y as int);
}

proof fn lemma_turned_tenths(x: int, y: int, rot: int, m: crate::geom::Mirror)
    ensures
        symlib::turned(x, y, rot, m).0 % 10 == 0,
        symlib::turned(x, y, rot, m).1 % 10 == 0,
{
    reveal(symlib::turned);
}

/// A power symbol is read as it was written.
#[verifier::spinoff_prover]
#[verifier::rlimit(60)]
pub proof fn lemma_power_node(
    des: DesignV,
    infos: OrderMap<Arc<SymbolInfo>>,
    x: WrittenPower,
    on: DesignV,
)
    requires
        plain_power(x, infos),
        steady(power_written(x, on)),
    ensures
        sexp::is_tagged(power_written(x, on), "symbol"@),
        extract::with_node(des, power_written(x, on), infos) == found_on(
            DesignV { power: des.power.push(power_read(x, infos)), ..des },
            on.project,
            on.sheet_path_uuid,
        ),
{
    lemma_tags();
    let p = power_seen(x);
    let n = power_written(x, on);
    let v = sexp::items_of(n);
    let h = compile::part_head(p).len() as int;
    let tail = v.skip(h + 6);
    let rp = place_text::library_at(p, sexp::prop_of(x.libnode, "Reference"@));
    let s = Shown {
        r: AtV { rot: 0, justify: Seq::empty(), ..rp },
        r_hide: true,
        value: compile::power_shown(x.w),
        v: compile::power_value_at(x.w, p, x.libnode),
        v_hide: x.w.hide_value,
        foot: ""@,
    };
    assert(v =~= compile::part_head(p) + compile::part_flags(1, false, x.uuid) + tail);
    assert(n == symbol_node(p, 1, false, x.uuid, tail));
    assert(tail.len() == 7);
    assert(tail[0] == compile::property_spec("Reference"@, p.id, s.r, true));
    assert(tail[1] == compile::property_spec("Value"@, s.value, s.v, x.w.hide_value));
    assert(tail[2] == compile::hidden_spec("Footprint"@, s.foot, p.at));
    assert(tail[3] == compile::hidden_spec("Datasheet"@, ""@, p.at));
    assert(tail[4] == compile::hidden_spec("Description"@, x.u.info.description@, p.at));
    assert(tail[6] == compile::instances_spec(on.project, on.sheet_path_uuid, p.id, 1));
    assert(v[h + 6] == tail[0] && v[h + 7] == tail[1] && v[h + 8] == tail[2]);
    lemma_steady_items(v, h + 6);
    lemma_steady_items(v, h + 7);
    lemma_steady_items(v, h + 8);
    lemma_steady_at(tail, 0, "Reference"@, p.id, s.r, true);
    lemma_steady_at(tail, 1, "Value"@, s.value, s.v, x.w.hide_value);
    let at = AtV { x: p.at.x as int, y: p.at.y as int, rot: 0, justify: Seq::empty() };
    lemma_steady_at(tail, 2, "Footprint"@, s.foot, at, true);
    assert forall|j: int| 0 <= j < tail.len() implies tail_tag(sexp::tag_of(#[trigger] tail[j]))
        && (j < tail.len() - 1 ==> sexp::tag_of(tail[j]) != "instances"@) by {
    }
    lemma_symbol_head(p, 1, false, x.uuid, tail);
    lemma_symbol_tail(des, p, 1, false, x.uuid, s, on.project, on.sheet_path_uuid, tail);
    let d = extract::with_symbol(des, n, infos);
    assert(d.power =~= des.power.push(power_read(x, infos)));
}

} // verus!
