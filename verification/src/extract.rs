//! Reads a schematic file into a [`Design`].
//!
//! Identifiers, the file's own symbols and every node that the model never edits are kept, so that
//! writing an untouched design gives the sheet back.
use crate::geom::Pt;
use crate::json;
use crate::json::{Json, JsonV};
use crate::model;
use crate::model::{
    Anchor, AnchorV, Design, DesignV, Label, LabelV, Part, PartV, Power, PowerV, Rect, RectV, Text,
    TextV,
};
use crate::number;
use crate::number::{round_to, NUM_MAX};
use crate::order_map;
use crate::order_map::OrderMap;
use crate::sexp;
use crate::sexp::{loads, put_named, Sexp, SexpV};
use crate::symlib;
use crate::symlib::{mirror_of, rot_point, SymbolInfo};
use crate::text;
use crate::text::{join, same, split, starts_with};
use std::sync::Arc;
use vstd::prelude::*;

verus! {

/// Millionths of a millimetre as coordinate, to the nearest.
pub open spec fn units_of(m: int) -> int {
    if m < 0 {
        -number::nearest(-m, 10)
    } else {
        number::nearest(m, 10)
    }
}

/// Millionths cut to a whole number.
pub open spec fn whole(m: int) -> int {
    if m < 0 {
        -((-m) / 1_000_000)
    } else {
        m / 1_000_000
    }
}

pub open spec fn clamp_i32(v: int) -> int {
    if v < i32::MIN {
        i32::MIN as int
    } else if v > i32::MAX {
        i32::MAX as int
    } else {
        v
    }
}

/// The number at a position of a list, or 0, in millionths.
pub open spec fn number_at(n: SexpV, i: int) -> int {
    let v = sexp::items_of(n);
    if i < v.len() && sexp::number_in(v[i]) is Some {
        sexp::number_in(v[i])->0
    } else {
        0
    }
}

pub open spec fn xy_of(n: SexpV) -> Pt {
    Pt { x: units_of(number_at(n, 1)) as i64, y: units_of(number_at(n, 2)) as i64 }
}

/// Point and angle of an `at` node; without one, the origin.
pub open spec fn at_of(n: Option<SexpV>) -> (Pt, int) {
    match n {
        Some(a) => (xy_of(a), whole(number_at(a, 3))),
        None => (Pt { x: 0, y: 0 }, 0),
    }
}

pub open spec fn child_in(n: Option<SexpV>, tag: Seq<char>) -> Option<SexpV> {
    match n {
        Some(x) => sexp::child_of(x, tag),
        None => None,
    }
}

pub open spec fn texts_from(v: Seq<SexpV>) -> Seq<Seq<char>> {
    Seq::new(v.len(), |i: int| sexp::text_of(v[i]))
}

pub open spec fn behind_tag(v: Seq<SexpV>) -> Seq<SexpV> {
    if v.len() == 0 {
        v
    } else {
        v.skip(1)
    }
}

/// The words of a `justify` node.
pub open spec fn justify_of(effects: Option<SexpV>) -> Seq<char> {
    match child_in(effects, "justify"@) {
        Some(j) => text::joined(texts_from(behind_tag(sexp::items_of(j))), " "@),
        None => Seq::empty(),
    }
}

/// The text of the first atom behind a node's tag.
pub open spec fn text_of(n: Option<SexpV>) -> Seq<char> {
    text_at(n, 1)
}

pub open spec fn text_at(n: Option<SexpV>, i: int) -> Seq<char> {
    match n {
        Some(x) => if i < sexp::items_of(x).len() {
            sexp::text_of(sexp::items_of(x)[i])
        } else {
            Seq::empty()
        },
        None => Seq::empty(),
    }
}

/// Where a named property stands, and whether it is hidden.
pub open spec fn prop_pos(node: SexpV, name: Seq<char>) -> (Option<AnchorV>, bool) {
    match sexp::prop_of(node, name) {
        Some(p) => {
            let eff = sexp::child_of(p, "effects"@);
            let hide = child_in(eff, "hide"@);
            (
                match sexp::child_of(p, "at"@) {
                    Some(a) => Some(
                        AnchorV {
                            at: xy_of(a),
                            rest: seq![
                                JsonV::Int(whole(number_at(a, 3))),
                                JsonV::Str(justify_of(eff)),
                            ],
                        },
                    ),
                    None => None,
                },
                hide is Some && text_of(hide) == "yes"@,
            )
        },
        None => (None, false),
    }
}

/// What the instance data of a symbol tell: its reference, and path and project of the sheet.
pub struct InstV {
    pub reference: Seq<char>,
    pub path: Seq<char>,
    pub project: Seq<char>,
}

pub open spec fn with_paths(st: InstV, proj: SexpV, paths: Seq<SexpV>, n: int) -> InstV
    decreases n,
{
    if n <= 0 {
        st
    } else {
        let before = with_paths(st, proj, paths, n - 1);
        let p = paths[n - 1];
        let reference = match sexp::child_of(p, "reference"@) {
            Some(r) => text_of(Some(r)),
            None => before.reference,
        };
        if before.path.len() == 0 {
            InstV { reference, path: text_of(Some(p)), project: text_of(Some(proj)) }
        } else {
            InstV { reference, ..before }
        }
    }
}

pub open spec fn with_projects(st: InstV, projs: Seq<SexpV>, n: int) -> InstV
    decreases n,
{
    if n <= 0 {
        st
    } else {
        let paths = sexp::children_of(projs[n - 1], "path"@);
        with_paths(with_projects(st, projs, n - 1), projs[n - 1], paths, paths.len() as int)
    }
}

pub open spec fn instance_of(des: DesignV, node: SexpV) -> InstV {
    let st = InstV {
        reference: match sexp::prop_text(node, "Reference"@) {
            Some(r) => r,
            None => "?"@,
        },
        path: des.sheet_path_uuid,
        project: des.project,
    };
    match sexp::child_of(node, "instances"@) {
        Some(inst) => {
            let projs = sexp::children_of(inst, "project"@);
            with_projects(st, projs, projs.len() as int)
        },
        None => st,
    }
}

pub open spec fn or_empty(t: Option<Seq<char>>) -> Seq<char> {
    match t {
        Some(s) => s,
        None => Seq::empty(),
    }
}

/// A property that becomes an extra field of the part.
pub open spec fn is_field(name: Seq<char>, v: Seq<char>) -> bool {
    &&& name != "Reference"@ && name != "Value"@ && name != "Footprint"@
    &&& !text::starts(name, "ki_"@)
    &&& v.len() > 0 && v != "~"@
}

pub open spec fn fields_of(props: Seq<SexpV>, n: int) -> Seq<(Seq<char>, JsonV)>
    decreases n,
{
    if n <= 0 {
        Seq::empty()
    } else {
        let before = fields_of(props, n - 1);
        let name = text_of(Some(props[n - 1]));
        let v = text_at(Some(props[n - 1]), 2);
        if is_field(name, v) {
            order_map::put(before, name, JsonV::Str(v))
        } else {
            before
        }
    }
}

/// The symbol behind an instance: the sheet's own copy first.
pub open spec fn info_for(infos: OrderMap<Arc<SymbolInfo>>, lib_name: Seq<char>, lib: Seq<char>) -> Option<
    Arc<SymbolInfo>,
> {
    match infos.found(lib_name) {
        Some(i) => Some(i),
        None => infos.found(lib),
    }
}

/// What stands behind the first colon of a library id, or all of it.
pub open spec fn behind_colon(lib: Seq<char>) -> Seq<char> {
    let p = text::pieces(lib, ':');
    if p.len() > 1 {
        lib.skip(p[0].len() as int + 1)
    } else {
        lib
    }
}

pub open spec fn unit_of(node: SexpV) -> int {
    match sexp::child_of(node, "unit"@) {
        Some(u) => if sexp::items_of(u).len() > 1 && sexp::number_in(sexp::items_of(u)[1]) is Some {
            clamp_i32(whole(number_at(u, 1)))
        } else {
            1
        },
        None => 1,
    }
}

pub open spec fn is_power_symbol(info: Option<Arc<SymbolInfo>>, lib: Seq<char>, reference: Seq<char>) -> bool {
    ||| (match info {
        Some(i) => i.power,
        None => text::starts(lib, "power:"@),
    })
    ||| text::starts(reference, "#PWR"@)
}

/// Where the pin of a power symbol connects.
pub open spec fn pin_offset(info: Option<Arc<SymbolInfo>>, rot: int, mirror: Seq<char>) -> (int, int) {
    match info {
        Some(i) => if i.pins@.len() > 0 {
            symlib::turned(
                i.pins@[0].x as int,
                i.pins@[0].y as int,
                rot,
                symlib::mirror_spec(mirror),
            )
        } else {
            (0, 0)
        },
        None => (0, 0),
    }
}

pub open spec fn with_symbol(des: DesignV, node: SexpV, infos: OrderMap<Arc<SymbolInfo>>) -> DesignV {
    let lib = text_of(sexp::child_of(node, "lib_id"@));
    let (at, angle) = at_of(sexp::child_of(node, "at"@));
    let rot = clamp_i32(angle);
    let mirror = text_of(sexp::child_of(node, "mirror"@));
    let uuid = text_of(sexp::child_of(node, "uuid"@));
    let inst = instance_of(des, node);
    let lib_name = text_of(sexp::child_of(node, "lib_name"@));
    let info = info_for(infos, lib_name, lib);
    let value = or_empty(sexp::prop_text(node, "Value"@));
    let (val_at, hide_value) = prop_pos(node, "Value"@);
    let d = DesignV { sheet_path_uuid: inst.path, project: inst.project, ..des };
    if is_power_symbol(info, lib, inst.reference) {
        let (px, py) = pin_offset(info, rot, mirror);
        DesignV {
            power: des.power.push(
                PowerV {
                    net: if value.len() == 0 {
                        behind_colon(lib)
                    } else {
                        value
                    },
                    at: Pt {
                        x: number::rounded(at.x + px, 10) as i64,
                        y: number::rounded(at.y + py, 10) as i64,
                    },
                    rot,
                    lib,
                    reference: inst.reference,
                    uuid,
                    value,
                    val_at,
                    hide_value,
                    mirror,
                },
            ),
            ..d
        }
    } else {
        let props = sexp::children_of(node, "property"@);
        let dnp = sexp::child_of(node, "dnp"@);
        DesignV {
            parts: des.parts.push(
                PartV {
                    id: inst.reference,
                    lib,
                    at,
                    rot,
                    mirror,
                    value,
                    unit: unit_of(node),
                    footprint: or_empty(sexp::prop_text(node, "Footprint"@)),
                    dnp: dnp is Some && text_of(dnp) == "yes"@,
                    fields: fields_of(props, props.len() as int),
                    ref_at: prop_pos(node, "Reference"@).0,
                    val_at,
                    hide_value,
                    uuid,
                    lib_name,
                },
            ),
            ..d
        }
    }
}

pub open spec fn points_of(v: Seq<SexpV>) -> Seq<Pt> {
    Seq::new(v.len(), |i: int| xy_of(v[i]))
}

pub open spec fn with_wire(des: DesignV, node: SexpV) -> DesignV {
    DesignV {
        wires: des.wires.push(
            match sexp::child_of(node, "pts"@) {
                Some(p) => points_of(sexp::children_of(p, "xy"@)),
                None => Seq::empty(),
            },
        ),
        wire_uuids: des.wire_uuids.push(text_of(sexp::child_of(node, "uuid"@))),
        ..des
    }
}

pub open spec fn with_label(des: DesignV, node: SexpV, kind: Seq<char>) -> DesignV {
    let (at, angle) = at_of(sexp::child_of(node, "at"@));
    let shape = sexp::child_of(node, "shape"@);
    DesignV {
        labels: des.labels.push(
            LabelV {
                text: text_of(Some(node)),
                at,
                rot: clamp_i32(angle),
                kind,
                shape: if shape is Some {
                    text_of(shape)
                } else {
                    "input"@
                },
                uuid: text_of(sexp::child_of(node, "uuid"@)),
                justify: justify_of(sexp::child_of(node, "effects"@)),
            },
        ),
        ..des
    }
}

pub open spec fn with_text(des: DesignV, node: SexpV) -> DesignV {
    let (at, angle) = at_of(sexp::child_of(node, "at"@));
    let eff = sexp::child_of(node, "effects"@);
    let fnt = child_in(eff, "font"@);
    let size = child_in(fnt, "size"@);
    let bold = child_in(fnt, "bold"@);
    let j = justify_of(eff);
    DesignV {
        texts: des.texts.push(
            TextV {
                text: text_of(Some(node)),
                at,
                rot: clamp_i32(angle),
                size: match size {
                    Some(s) => if sexp::items_of(s).len() > 1 && sexp::number_in(
                        sexp::items_of(s)[1],
                    ) is Some {
                        units_of(number_at(s, 1))
                    } else {
                        127_000
                    },
                    None => 127_000,
                },
                bold: bold is Some && text_of(bold) == "yes"@,
                justify: if j.len() == 0 {
                    "left bottom"@
                } else {
                    j
                },
                uuid: text_of(sexp::child_of(node, "uuid"@)),
            },
        ),
        ..des
    }
}

pub open spec fn point_in(n: Option<SexpV>) -> Pt {
    match n {
        Some(p) => xy_of(p),
        None => Pt { x: 0, y: 0 },
    }
}

pub open spec fn with_rect(des: DesignV, node: SexpV) -> DesignV {
    DesignV {
        rects: des.rects.push(
            RectV {
                start: point_in(sexp::child_of(node, "start"@)),
                end: point_in(sexp::child_of(node, "end"@)),
                uuid: text_of(sexp::child_of(node, "uuid"@)),
            },
        ),
        ..des
    }
}

/// Nodes that are read elsewhere, or written anew.
pub open spec fn is_known(tag: Seq<char>) -> bool {
    ||| tag == "version"@
    ||| tag == "generator"@
    ||| tag == "generator_version"@
    ||| tag == "uuid"@
    ||| tag == "paper"@
    ||| tag == "title_block"@
    ||| tag == "lib_symbols"@
    ||| tag == "sheet_instances"@
    ||| tag == "symbol_instances"@
    ||| tag == "embedded_fonts"@
}

/// The design with one node of the sheet more.
pub open spec fn with_node(des: DesignV, node: SexpV, infos: OrderMap<Arc<SymbolInfo>>) -> DesignV {
    let tag = sexp::tag_of(node);
    if !(node is List) {
        des
    } else if tag == "symbol"@ {
        with_symbol(des, node, infos)
    } else if tag == "wire"@ {
        with_wire(des, node)
    } else if tag == "label"@ {
        with_label(des, node, "local"@)
    } else if tag == "global_label"@ {
        with_label(des, node, "global"@)
    } else if tag == "hierarchical_label"@ {
        with_label(des, node, "hier"@)
    } else if tag == "no_connect"@ {
        match sexp::child_of(node, "at"@) {
            Some(a) => DesignV { nc: des.nc.push(xy_of(a)), ..des },
            None => des,
        }
    } else if tag == "junction"@ {
        match sexp::child_of(node, "at"@) {
            Some(a) => DesignV { junctions: des.junctions.push(xy_of(a)), ..des },
            None => des,
        }
    } else if tag == "text"@ {
        with_text(des, node)
    } else if tag == "rectangle"@ {
        with_rect(des, node)
    } else if is_known(tag) {
        des
    } else {
        DesignV { extra_nodes: des.extra_nodes.push(node), ..des }
    }
}

/// The design with the first `n` items of the sheet.
pub open spec fn with_nodes(des: DesignV, v: Seq<SexpV>, infos: OrderMap<Arc<SymbolInfo>>, n: int) -> DesignV
    decreases n,
{
    if n <= 1 {
        des
    } else {
        with_node(with_nodes(des, v, infos, n - 1), v[n - 1], infos)
    }
}

pub open spec fn comments_of(v: Seq<SexpV>) -> Seq<Seq<char>> {
    Seq::new(v.len(), |i: int| text_at(Some(v[i]), 2))
}

/// The sheet's head: identifier, paper and title block.
pub open spec fn head_of(root: SexpV) -> DesignV {
    let paper = sexp::child_of(root, "paper"@);
    let tb = sexp::child_of(root, "title_block"@);
    DesignV {
        uuid: text_of(sexp::child_of(root, "uuid"@)),
        paper: if paper is Some {
            text_of(paper)
        } else {
            "A4"@
        },
        title: text_of(child_in(tb, "title"@)),
        rev: text_of(child_in(tb, "rev"@)),
        company: text_of(child_in(tb, "company"@)),
        date: text_of(child_in(tb, "date"@)),
        comments: match tb {
            Some(t) => comments_of(sexp::children_of(t, "comment"@)),
            None => Seq::empty(),
        },
        ..DesignV::empty()
    }
}

/// The symbols of the sheet by name; a later one of the same name takes the earlier one's place.
pub open spec fn symbols_of(v: Seq<SexpV>, n: int) -> Seq<(Seq<char>, SexpV)>
    decreases n,
{
    if n <= 0 {
        Seq::empty()
    } else {
        order_map::put(symbols_of(v, n - 1), text_of(Some(v[n - 1])), v[n - 1])
    }
}

pub open spec fn lib_symbols_of(root: SexpV) -> Seq<(Seq<char>, SexpV)> {
    match sexp::child_of(root, "lib_symbols"@) {
        Some(l) => {
            let v = sexp::children_of(l, "symbol"@);
            symbols_of(v, v.len() as int)
        },
        None => Seq::empty(),
    }
}

/// The design that a sheet holds.
pub open spec fn design_of(root: SexpV, infos: OrderMap<Arc<SymbolInfo>>) -> DesignV {
    let v = sexp::items_of(root);
    with_nodes(
        DesignV { lib_symbols: lib_symbols_of(root), ..head_of(root) },
        v,
        infos,
        v.len() as int,
    )
}

proof fn lemma_units(m: int)
    requires
        -NUM_MAX <= m <= NUM_MAX,
    ensures
        -900_000_000_000_000 <= units_of(m) <= 900_000_000_000_000,
{
}

pub(crate) fn to_units(m: i64) -> (r: i64)
    requires
        -NUM_MAX <= m <= NUM_MAX,
    ensures
        r == units_of(m as int),
        -900_000_000_000_000 <= r <= 900_000_000_000_000,
{
    let a: i64 = if m < 0 { -m } else { m };
    let q: i64 = a / 10;
    let t: i64 = a % 10;
    let n: i64 = if 2 * t < 10 || (2 * t == 10 && q % 2 == 0) { q } else { q + 1 };
    if m < 0 {
        -n
    } else {
        n
    }
}

pub(crate) fn to_whole(m: i64) -> (r: i64)
    requires
        -NUM_MAX <= m <= NUM_MAX,
    ensures
        r == whole(m as int),
{
    if m < 0 {
        -((-m) / 1_000_000)
    } else {
        m / 1_000_000
    }
}

pub(crate) fn to_i32(v: i64) -> (r: i32)
    ensures
        r == clamp_i32(v as int),
{
    if v < i32::MIN as i64 {
        i32::MIN
    } else if v > i32::MAX as i64 {
        i32::MAX
    } else {
        v as i32
    }
}

pub(crate) fn num_at(n: &Sexp, i: usize) -> (r: i64)
    requires
        sexp::ok(n@),
    ensures
        r == number_at(n@, i as int),
        -NUM_MAX <= r <= NUM_MAX,
{
    match n.item(i) {
        Some(x) => match x.number() {
            Some(v) => v,
            None => 0,
        },
        None => 0,
    }
}

fn xy(n: &Sexp) -> (r: Pt)
    requires
        sexp::ok(n@),
    ensures
        r == xy_of(n@),
        model::on_sheet(r),
{
    Pt { x: to_units(num_at(n, 1)), y: to_units(num_at(n, 2)) }
}

fn read_at(n: Option<&Sexp>) -> (r: (Pt, i64))
    requires
        n is Some ==> sexp::ok(n->0@),
    ensures
        (r.0, r.1 as int) == at_of(sexp::node_v(n)),
        -900_000_000_000_000 <= r.0.x <= 900_000_000_000_000,
        -900_000_000_000_000 <= r.0.y <= 900_000_000_000_000,
{
    match n {
        Some(a) => (
            Pt { x: to_units(num_at(a, 1)), y: to_units(num_at(a, 2)) },
            to_whole(num_at(a, 3)),
        ),
        None => (Pt { x: 0, y: 0 }, 0),
    }
}

pub(crate) fn child_node<'a>(n: Option<&'a Sexp>, tag: &str) -> (r: Option<&'a Sexp>)
    ensures
        sexp::node_v(r) == child_in(sexp::node_v(n), tag@),
        n is Some && sexp::ok(n->0@) && r is Some ==> sexp::ok(r->0@),
        n is None ==> r is None,
{
    match n {
        Some(x) => x.child(tag),
        None => None,
    }
}

pub(crate) fn justify(effects: Option<&Sexp>) -> (r: String)
    requires
        effects is Some ==> sexp::ok(effects->0@),
    ensures
        r@ == justify_of(sexp::node_v(effects)),
{
    match child_node(effects, "justify") {
        Some(j) => {
            let mut words: Vec<String> = Vec::new();
            if let Some(v) = j.as_list() {
                let ghost want = texts_from(behind_tag(sexp::items_of(j@)));
                let mut i: usize = 1;
                while i < v.len()
                    invariant
                        1 <= i,
                        i <= v@.len() || i == 1,
                        sexp::ok(j@),
                        j@ == SexpV::List(sexp::nodes_v(v@)),
                        want == texts_from(behind_tag(sexp::items_of(j@))),
                        words@.len() == i - 1,
                        forall|k: int| 0 <= k < i - 1 ==> (#[trigger] words@[k])@ == want[k],
                    decreases v@.len() - i,
                {
                    proof {
                        sexp::lemma_ok_item(j@, i as int);
                        assert(sexp::items_of(j@)[i as int] == v@[i as int]@);
                    }
                    words.push(v[i].text());
                    i += 1;
                }
                assert(text::views(words@) =~= want);
            }
            join(&words, " ")
        },
        None => {
            let r = String::new();
            assert(r@ =~= Seq::empty());
            r
        },
    }
}

fn item_text(n: Option<&Sexp>, i: usize) -> (r: String)
    requires
        n is Some ==> sexp::ok(n->0@),
    ensures
        r@ == text_at(sexp::node_v(n), i as int),
{
    match n {
        Some(x) => match x.item(i) {
            Some(t) => t.text(),
            None => {
                let r = String::new();
                assert(r@ =~= Seq::empty());
                r
            },
        },
        None => {
            let r = String::new();
            assert(r@ =~= Seq::empty());
            r
        },
    }
}

fn child_text(n: &Sexp, tag: &str) -> (r: String)
    requires
        sexp::ok(n@),
    ensures
        r@ == text_of(sexp::child_of(n@, tag@)),
{
    item_text(n.child(tag), 1)
}

fn says_yes(n: Option<&Sexp>) -> (r: bool)
    requires
        n is Some ==> sexp::ok(n->0@),
    ensures
        r == (n is Some && text_of(sexp::node_v(n)) == "yes"@),
{
    n.is_some() && same(item_text(n, 1).as_str(), "yes")
}

fn prop_anchor(node: &Sexp, name: &str) -> (r: (Option<Anchor>, bool))
    requires
        sexp::ok(node@),
    ensures
        (model::anchor_v(r.0), r.1) == prop_pos(node@, name@),
        model::anchor_ok(model::anchor_v(r.0)),
{
    match node.prop(name) {
        Some(p) => {
            let eff = p.child("effects");
            let hide = child_node(eff, "hide");
            let hidden = says_yes(hide);
            let anchor = match p.child("at") {
                Some(a) => {
                    let at = xy(a);
                    let mut rest: Vec<Json> = Vec::new();
                    rest.push(Json::Int(to_whole(num_at(a, 3))));
                    rest.push(Json::Str(justify(eff)));
                    let ghost want = seq![
                        JsonV::Int(whole(number_at(a@, 3))),
                        JsonV::Str(justify_of(sexp::node_v(eff))),
                    ];
                    assert(json::values_v(rest@) =~= want);
                    Some(Anchor { at, rest })
                },
                None => None,
            };
            (anchor, hidden)
        },
        None => (None, false),
    }
}

struct Inst {
    reference: String,
    path: String,
    project: String,
}

impl Inst {
    spec fn v(&self) -> InstV {
        InstV { reference: self.reference@, path: self.path@, project: self.project@ }
    }
}

fn read_paths(st: &mut Inst, proj: &Sexp)
    requires
        sexp::ok(proj@),
    ensures
        ({
            let paths = sexp::children_of(proj@, "path"@);
            final(st).v() == with_paths(old(st).v(), proj@, paths, paths.len() as int)
        }),
{
    let paths = proj.children("path");
    let ghost st0 = st.v();
    let ghost ps = sexp::children_of(proj@, "path"@);
    let mut i: usize = 0;
    while i < paths.len()
        invariant
            i <= paths@.len(),
            sexp::ok(proj@),
            ps == sexp::refs_v(paths@),
            sexp::all_ok(ps),
            st.v() == with_paths(st0, proj@, ps, i as int),
        decreases paths@.len() - i,
    {
        let p = paths[i];
        assert(ps[i as int] == p@);
        assert(sexp::ok(ps[i as int]));
        if let Some(r) = p.child("reference") {
            st.reference = item_text(Some(r), 1);
        }
        if st.path.as_str().unicode_len() == 0 {
            st.path = item_text(Some(p), 1);
            st.project = item_text(Some(proj), 1);
        }
        i += 1;
    }
}

fn read_instance(path: &String, project: &String, node: &Sexp, Ghost(des): Ghost<DesignV>) -> (r: Inst)
    requires
        sexp::ok(node@),
        path@ == des.sheet_path_uuid,
        project@ == des.project,
    ensures
        r.v() == instance_of(des, node@),
{
    let reference = match node.prop_value("Reference") {
        Some(r) => r,
        None => "?".to_owned(),
    };
    let mut st = Inst { reference, path: path.clone(), project: project.clone() };
    if let Some(inst) = node.child("instances") {
        let projs = inst.children("project");
        let ghost st0 = st.v();
        let ghost ps = sexp::children_of(inst@, "project"@);
        let mut i: usize = 0;
        while i < projs.len()
            invariant
                i <= projs@.len(),
                ps == sexp::refs_v(projs@),
                sexp::all_ok(ps),
                st.v() == with_projects(st0, ps, i as int),
            decreases projs@.len() - i,
        {
            assert(ps[i as int] == projs@[i as int]@);
            assert(sexp::ok(ps[i as int]));
            read_paths(&mut st, projs[i]);
            i += 1;
        }
    }
    st
}

fn value_or_empty(t: Option<String>) -> (r: String)
    ensures
        r@ == (match t {
            Some(s) => s@,
            None => Seq::empty(),
        }),
{
    match t {
        Some(s) => s,
        None => {
            let r = String::new();
            assert(r@ =~= Seq::empty());
            r
        },
    }
}

fn read_fields(node: &Sexp) -> (r: Vec<(String, Json)>)
    requires
        sexp::ok(node@),
    ensures
        ({
            let props = sexp::children_of(node@, "property"@);
            json::entries_v(r@) == fields_of(props, props.len() as int)
        }),
        json::fields_ok(json::entries_v(r@)),
{
    let props = node.children("property");
    let ghost ps = sexp::children_of(node@, "property"@);
    let mut r: Vec<(String, Json)> = Vec::new();
    let mut i: usize = 0;
    assert(json::entries_v(r@) =~= Seq::empty());
    while i < props.len()
        invariant
            i <= props@.len(),
            ps == sexp::refs_v(props@),
            sexp::all_ok(ps),
            json::entries_v(r@) == fields_of(ps, i as int),
            json::fields_ok(json::entries_v(r@)),
        decreases props@.len() - i,
    {
        let p = props[i];
        assert(ps[i as int] == p@);
        assert(sexp::ok(ps[i as int]));
        let name = item_text(Some(p), 1);
        let v = item_text(Some(p), 2);
        let n = name.as_str();
        if !same(n, "Reference") && !same(n, "Value") && !same(n, "Footprint") && !starts_with(n, "ki_")
            && v.as_str().unicode_len() > 0 && !same(v.as_str(), "~") {
            let x = Json::Str(v);
            proof {
                json::lemma_put_ok(json::entries_v(r@), name@, x@);
            }
            json::put_entry(&mut r, n, x);
        }
        i += 1;
    }
    r
}

fn info_of<'a>(infos: &'a OrderMap<Arc<SymbolInfo>>, lib_name: &str, lib: &str) -> (r: Option<
    &'a Arc<SymbolInfo>,
>)
    requires
        infos.wf(),
        forall|i: int| 0 <= i < infos.vals@.len() ==> (#[trigger] infos.vals@[i]).wf(),
    ensures
        match r {
            Some(i) => info_for(*infos, lib_name@, lib@) == Some(*i) && i.wf(),
            None => info_for(*infos, lib_name@, lib@) is None,
        },
{
    proof {
        order_map::lemma_first_of(infos.names(), lib_name@);
        order_map::lemma_first_of(infos.names(), lib@);
    }
    match infos.get(lib_name) {
        Some(i) => Some(i),
        None => infos.get(lib),
    }
}

pub(crate) fn cut_at_colon(lib: &str) -> (r: String)
    ensures
        r@ == behind_colon(lib@),
{
    let parts = split(lib, ':');
    assert(text::views(parts@).len() == parts@.len());
    if parts.len() > 1 {
        assert(text::views(parts@)[0] == parts@[0]@);
        let v = text::chars_of(lib);
        let n: usize = v.len();
        proof {
            lemma_first_piece(lib@, 0, Seq::empty());
        }
        let k: usize = parts[0].as_str().unicode_len() + 1;
        let mut r = String::new();
        let mut i: usize = k;
        assert(r@ =~= v@.skip(k as int).take(0));
        while i < n
            invariant
                k <= i <= n,
                n == v@.len(),
                r@ == v@.skip(k as int).take(i - k),
            decreases n - i,
        {
            assert(v@.skip(k as int).take(i - k + 1) =~= v@.skip(k as int).take(i - k).push(
                v@[i as int],
            ));
            r.push(v[i]);
            i += 1;
        }
        assert(v@.skip(k as int).take(n - k) =~= v@.skip(k as int));
        r
    } else {
        lib.to_owned()
    }
}

proof fn lemma_first_piece(s: Seq<char>, i: int, cur: Seq<char>)
    requires
        0 <= i <= s.len(),
        cur.len() == i,
    ensures
        text::pieces_from(s, ':', i, cur).len() > 1 ==> text::pieces_from(s, ':', i, cur)[0].len()
            < s.len(),
    decreases s.len() - i,
{
    if i < s.len() && s[i] != ':' {
        lemma_first_piece(s, i + 1, cur.push(s[i]));
    }
}

fn read_unit(node: &Sexp) -> (r: i32)
    requires
        sexp::ok(node@),
    ensures
        r == unit_of(node@),
{
    match node.child("unit") {
        Some(u) => match u.item(1) {
            Some(x) => match x.number() {
                Some(v) => to_i32(to_whole(v)),
                None => 1,
            },
            None => 1,
        },
        None => 1,
    }
}

fn push_symbol(des: &mut Design, node: &Sexp, infos: &OrderMap<Arc<SymbolInfo>>)
    requires
        sexp::ok(node@),
        old(des)@.ok(),
        infos.wf(),
        forall|i: int| 0 <= i < infos.vals@.len() ==> (#[trigger] infos.vals@[i]).wf(),
    ensures
        final(des)@ == with_symbol(old(des)@, node@, *infos),
        final(des)@.ok(),
{
    let ghost d0 = des@;
    let lib = child_text(node, "lib_id");
    let (at, angle) = read_at(node.child("at"));
    let rot: i32 = to_i32(angle);
    let mirror = child_text(node, "mirror");
    let uuid = child_text(node, "uuid");
    let inst = read_instance(&des.sheet_path_uuid, &des.project, node, Ghost(des@));
    let lib_name = child_text(node, "lib_name");
    let info = info_of(infos, lib_name.as_str(), lib.as_str());
    let value = value_or_empty(node.prop_value("Value"));
    let (val_at, hide_value) = prop_anchor(node, "Value");
    let power = match info {
        Some(i) => i.power,
        None => starts_with(lib.as_str(), "power:"),
    } || starts_with(inst.reference.as_str(), "#PWR");
    let Inst { reference, path, project } = inst;
    des.sheet_path_uuid = path;
    des.project = project;
    let ghost d1 = des@;
    if power {
        let mut off: (i64, i64) = (0, 0);
        if let Some(i) = info {
            if i.pins.len() > 0 {
                assert(symlib::pin_ok(i.pins@[0]));
                off = rot_point(i.pins[0].x, i.pins[0].y, rot, mirror_of(mirror.as_str()));
            }
        }
        let net = if value.as_str().unicode_len() == 0 {
            cut_at_colon(lib.as_str())
        } else {
            value.clone()
        };
        let p = Power {
            net,
            at: Pt { x: round_to(at.x + off.0, 10), y: round_to(at.y + off.1, 10) },
            rot,
            lib,
            reference,
            uuid,
            value,
            val_at,
            hide_value,
            mirror,
        };
        let ghost pv = p@;
        let ghost before = des.power@;
        des.power.push(p);
        proof {
            assert(model::powers_v(des.power@) =~= model::powers_v(before).push(pv));
            assert(des@ =~= with_symbol(d0, node@, *infos));
        }
    } else {
        let (ref_at, _) = prop_anchor(node, "Reference");
        let p = Part {
            id: reference,
            lib,
            at,
            rot,
            mirror,
            value,
            unit: read_unit(node),
            footprint: value_or_empty(node.prop_value("Footprint")),
            dnp: says_yes(node.child("dnp")),
            fields: read_fields(node),
            ref_at,
            val_at,
            hide_value,
            uuid,
            lib_name,
        };
        let ghost pv = p@;
        let ghost before = des.parts@;
        des.parts.push(p);
        proof {
            assert(model::parts_v(des.parts@) =~= model::parts_v(before).push(pv));
            assert(des@ =~= with_symbol(d0, node@, *infos));
        }
    }
}

fn push_wire(des: &mut Design, node: &Sexp)
    requires
        sexp::ok(node@),
        old(des)@.ok(),
    ensures
        final(des)@ == with_wire(old(des)@, node@),
        final(des)@.ok(),
{
    let ghost d0 = des@;
    let mut pts: Vec<Pt> = Vec::new();
    if let Some(p) = node.child("pts") {
        let xs = p.children("xy");
        let ghost vs = sexp::children_of(p@, "xy"@);
        let mut i: usize = 0;
        while i < xs.len()
            invariant
                i <= xs@.len(),
                vs == sexp::refs_v(xs@),
                sexp::all_ok(vs),
                pts@.len() == i,
                forall|k: int| 0 <= k < i ==> #[trigger] pts@[k] == xy_of(vs[k]),
                model::path_ok(pts@),
            decreases xs@.len() - i,
        {
            assert(vs[i as int] == xs@[i as int]@);
            assert(sexp::ok(vs[i as int]));
            pts.push(xy(xs[i]));
            i += 1;
        }
        assert(pts@ =~= points_of(vs));
    } else {
        assert(pts@ =~= Seq::empty());
    }
    let uuid = child_text(node, "uuid");
    let ghost w0 = des.wires@;
    let ghost u0 = des.wire_uuids@;
    let ghost pv = pts@;
    let ghost uv = uuid@;
    des.wires.push(pts);
    des.wire_uuids.push(uuid);
    proof {
        assert(model::wires_v(des.wires@) =~= model::wires_v(w0).push(pv));
        assert(text::views(des.wire_uuids@) =~= text::views(u0).push(uv));
        assert(des@ =~= with_wire(d0, node@));
    }
}

fn push_label(des: &mut Design, node: &Sexp, kind: &str)
    requires
        sexp::ok(node@),
        old(des)@.ok(),
    ensures
        final(des)@ == with_label(old(des)@, node@, kind@),
        final(des)@.ok(),
{
    let ghost d0 = des@;
    let (at, angle) = read_at(node.child("at"));
    let l = Label {
        text: item_text(Some(node), 1),
        at,
        rot: to_i32(angle),
        kind: kind.to_owned(),
        shape: match node.child("shape") {
            Some(s) => item_text(Some(s), 1),
            None => "input".to_owned(),
        },
        uuid: child_text(node, "uuid"),
        justify: justify(node.child("effects")),
    };
    let ghost lv = l@;
    let ghost before = des.labels@;
    des.labels.push(l);
    proof {
        assert(model::labels_v(des.labels@) =~= model::labels_v(before).push(lv));
        assert(des@ =~= with_label(d0, node@, kind@));
    }
}

fn push_text(des: &mut Design, node: &Sexp)
    requires
        sexp::ok(node@),
        old(des)@.ok(),
    ensures
        final(des)@ == with_text(old(des)@, node@),
        final(des)@.ok(),
{
    let ghost d0 = des@;
    let (at, angle) = read_at(node.child("at"));
    let eff = node.child("effects");
    let fnt = child_node(eff, "font");
    let size: i64 = match child_node(fnt, "size") {
        Some(s) => match s.item(1) {
            Some(x) => match x.number() {
                Some(v) => to_units(v),
                None => 127_000,
            },
            None => 127_000,
        },
        None => 127_000,
    };
    let j = justify(eff);
    let t = Text {
        text: item_text(Some(node), 1),
        at,
        rot: to_i32(angle),
        size,
        bold: says_yes(child_node(fnt, "bold")),
        justify: if j.as_str().unicode_len() == 0 {
            "left bottom".to_owned()
        } else {
            j
        },
        uuid: child_text(node, "uuid"),
    };
    let ghost tv = t@;
    let ghost before = des.texts@;
    des.texts.push(t);
    proof {
        assert(model::texts_v(des.texts@) =~= model::texts_v(before).push(tv));
        assert(des@ =~= with_text(d0, node@));
    }
}

fn read_point(n: Option<&Sexp>) -> (r: Pt)
    requires
        n is Some ==> sexp::ok(n->0@),
    ensures
        r == point_in(sexp::node_v(n)),
        model::on_sheet(r),
{
    match n {
        Some(p) => xy(p),
        None => Pt { x: 0, y: 0 },
    }
}

fn push_rect(des: &mut Design, node: &Sexp)
    requires
        sexp::ok(node@),
        old(des)@.ok(),
    ensures
        final(des)@ == with_rect(old(des)@, node@),
        final(des)@.ok(),
{
    let ghost d0 = des@;
    let r = Rect {
        start: read_point(node.child("start")),
        end: read_point(node.child("end")),
        uuid: child_text(node, "uuid"),
    };
    let ghost rv = r@;
    let ghost before = des.rects@;
    des.rects.push(r);
    proof {
        assert(model::rects_v(des.rects@) =~= model::rects_v(before).push(rv));
        assert(des@ =~= with_rect(d0, node@));
    }
}

fn knows(tag: &str) -> (r: bool)
    ensures
        r == is_known(tag@),
{
    same(tag, "version") || same(tag, "generator") || same(tag, "generator_version") || same(
        tag,
        "uuid",
    ) || same(tag, "paper") || same(tag, "title_block") || same(tag, "lib_symbols") || same(
        tag,
        "sheet_instances",
    ) || same(tag, "symbol_instances") || same(tag, "embedded_fonts")
}

fn push_node(des: &mut Design, node: &Sexp, infos: &OrderMap<Arc<SymbolInfo>>)
    requires
        sexp::ok(node@),
        old(des)@.ok(),
        infos.wf(),
        forall|i: int| 0 <= i < infos.vals@.len() ==> (#[trigger] infos.vals@[i]).wf(),
    ensures
        final(des)@ == with_node(old(des)@, node@, *infos),
        final(des)@.ok(),
{
    let ghost d0 = des@;
    if !node.is_list() {
        return ;
    }
    let tag = node.tag();
    if same(tag, "symbol") {
        push_symbol(des, node, infos);
    } else if same(tag, "wire") {
        push_wire(des, node);
    } else if same(tag, "label") {
        push_label(des, node, "local");
    } else if same(tag, "global_label") {
        push_label(des, node, "global");
    } else if same(tag, "hierarchical_label") {
        push_label(des, node, "hier");
    } else if same(tag, "no_connect") {
        if let Some(a) = node.child("at") {
            des.nc.push(xy(a));
            assert(des@ =~= with_node(d0, node@, *infos));
        }
    } else if same(tag, "junction") {
        if let Some(a) = node.child("at") {
            des.junctions.push(xy(a));
            assert(des@ =~= with_node(d0, node@, *infos));
        }
    } else if same(tag, "text") {
        push_text(des, node);
    } else if same(tag, "rectangle") {
        push_rect(des, node);
    } else if !knows(tag) {
        let ghost e0 = des.extra_nodes@;
        let copy = node.dup();
        des.extra_nodes.push(copy);
        proof {
            assert(sexp::nodes_v(des.extra_nodes@) =~= sexp::nodes_v(e0).push(node@));
            assert(des@ =~= with_node(d0, node@, *infos));
        }
    }
}

fn read_head(root: &Sexp) -> (des: Design)
    requires
        sexp::ok(root@),
    ensures
        des@ == head_of(root@),
        des@.ok(),
{
    let mut des = Design::new();
    des.uuid = child_text(root, "uuid");
    if let Some(p) = root.child("paper") {
        des.paper = item_text(Some(p), 1);
    }
    let tb = root.child("title_block");
    des.title = item_text(child_node(tb, "title"), 1);
    des.rev = item_text(child_node(tb, "rev"), 1);
    des.company = item_text(child_node(tb, "company"), 1);
    des.date = item_text(child_node(tb, "date"), 1);
    if let Some(t) = tb {
        let cs = t.children("comment");
        let ghost vs = sexp::children_of(t@, "comment"@);
        let mut out: Vec<String> = Vec::new();
        let mut i: usize = 0;
        while i < cs.len()
            invariant
                i <= cs@.len(),
                vs == sexp::refs_v(cs@),
                sexp::all_ok(vs),
                out@.len() == i,
                forall|k: int| 0 <= k < i ==> (#[trigger] out@[k])@ == text_at(Some(vs[k]), 2),
            decreases cs@.len() - i,
        {
            assert(vs[i as int] == cs@[i as int]@);
            assert(sexp::ok(vs[i as int]));
            out.push(item_text(Some(cs[i]), 2));
            i += 1;
        }
        assert(text::views(out@) =~= comments_of(vs));
        des.comments = out;
    }
    assert(des@ =~= head_of(root@));
    des
}

fn read_symbols(root: &Sexp) -> (r: Vec<(String, Sexp)>)
    requires
        sexp::ok(root@),
    ensures
        sexp::named_v(r@) == lib_symbols_of(root@),
        forall|i: int|
            0 <= i < sexp::named_v(r@).len() ==> sexp::ok((#[trigger] sexp::named_v(r@)[i]).1),
{
    let mut r: Vec<(String, Sexp)> = Vec::new();
    assert(sexp::named_v(r@) =~= Seq::empty());
    if let Some(l) = root.child("lib_symbols") {
        let ss = l.children("symbol");
        let ghost vs = sexp::children_of(l@, "symbol"@);
        let mut i: usize = 0;
        while i < ss.len()
            invariant
                i <= ss@.len(),
                vs == sexp::refs_v(ss@),
                sexp::all_ok(vs),
                sexp::named_v(r@) == symbols_of(vs, i as int),
                forall|i: int|
                    0 <= i < sexp::named_v(r@).len() ==> sexp::ok(
                        (#[trigger] sexp::named_v(r@)[i]).1,
                    ),
            decreases ss@.len() - i,
        {
            let s = ss[i];
            assert(vs[i as int] == s@);
            assert(sexp::ok(vs[i as int]));
            let name = item_text(Some(s), 1);
            proof {
                order_map::lemma_seek(sexp::named_v(r@), name@, 0);
            }
            put_named(&mut r, name.as_str(), s.dup());
            i += 1;
        }
    }
    r
}

/// The symbols that a sheet carries, by name; none where the text is no sheet.
pub fn lib_symbols(t: &str) -> (r: Option<Vec<(String, Sexp)>>)
    ensures
        match r {
            Some(v) => sexp::loaded(t@) is Some && sexp::named_v(v@) == lib_symbols_of(
                sexp::loaded(t@)->0,
            ),
            None => sexp::loaded(t@) is None,
        },
{
    match loads(t) {
        Some(root) => Some(read_symbols(&root)),
        None => None,
    }
}

/// Reads a sheet. `infos` describes the symbols that the sheet carries. A text that holds no
/// s-expression is refused.
pub fn parse(t: &str, infos: &OrderMap<Arc<SymbolInfo>>) -> (r: Option<Design>)
    requires
        infos.wf(),
        forall|i: int| 0 <= i < infos.vals@.len() ==> (#[trigger] infos.vals@[i]).wf(),
    ensures
        match r {
            Some(d) => sexp::loaded(t@) is Some && d@ == design_of(sexp::loaded(t@)->0, *infos)
                && d@.ok(),
            None => sexp::loaded(t@) is None,
        },
{
    let root = match loads(t) {
        Some(r) => r,
        None => {
            return None;
        },
    };
    let mut des = read_head(&root);
    let ghost h = des@;
    des.lib_symbols = read_symbols(&root);
    assert(des@ =~= DesignV { lib_symbols: lib_symbols_of(root@), ..h });
    let ghost d0 = des@;
    if let Some(v) = root.as_list() {
        let ghost vs = sexp::items_of(root@);
        let mut i: usize = 1;
        while i < v.len()
            invariant
                1 <= i,
                i <= v@.len() || i == 1,
                sexp::ok(root@),
                vs == sexp::nodes_v(v@),
                root@ == SexpV::List(vs),
                des@.ok(),
                infos.wf(),
                forall|i: int| 0 <= i < infos.vals@.len() ==> (#[trigger] infos.vals@[i]).wf(),
                des@ == with_nodes(d0, vs, *infos, i as int),
            decreases v@.len() - i,
        {
            proof {
                sexp::lemma_ok_item(root@, i as int);
                assert(vs[i as int] == v@[i as int]@);
            }
            push_node(&mut des, &v[i], infos);
            i += 1;
        }
        assert(with_nodes(d0, vs, *infos, 0) == with_nodes(d0, vs, *infos, 1));
    }
    Some(des)
}

} // verus!
