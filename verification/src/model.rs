//! The design model: parts, power symbols, wires, labels, texts and rectangles of one sheet, and
//! the JSON form in which they are edited.
//!
//! Coordinates are hundred-thousandths of a millimetre with Y down; the JSON form carries grid
//! steps instead.
use crate::geom::Pt;
use crate::ids;
use crate::json;
use crate::json::{Json, JsonV};
use crate::sexp;
use crate::sexp::{Sexp, SexpV};
use crate::text;
pub use crate::edit::apply_patch;
pub use crate::model_json::{
    at_gu, at_mm, design_from_json, gu, mm, normalize_json, num, pt_gu, pt_mm, round_py, snap,
};
use vstd::prelude::*;

verus! {

/// Largest coordinate on a sheet.
pub const SHEET_MAX: i64 = 1_143_000_000_000_000;

pub open spec fn in_sheet(v: int) -> bool {
    -SHEET_MAX <= v <= SHEET_MAX
}

pub open spec fn on_sheet(p: Pt) -> bool {
    in_sheet(p.x as int) && in_sheet(p.y as int)
}

/// A text anchor: a point and what the editor attached to it (angle, then justification).
#[derive(Debug)]
pub struct Anchor {
    pub at: Pt,
    pub rest: Vec<Json>,
}

/// A part of the sheet.
#[derive(Debug)]
pub struct Part {
    /// Reference designator, such as `U1`.
    pub id: String,
    /// Library id, such as `Device:R`.
    pub lib: String,
    pub at: Pt,
    pub rot: i32,
    /// Empty, `x` or `y`.
    pub mirror: String,
    pub value: String,
    pub unit: i32,
    pub footprint: String,
    pub dnp: bool,
    /// Extra properties.
    pub fields: Vec<(String, Json)>,
    /// Where the reference stands, if not where the library puts it.
    pub ref_at: Option<Anchor>,
    pub val_at: Option<Anchor>,
    pub hide_value: bool,
    pub uuid: String,
    /// Name of the sheet's own copy of the symbol, where the instance uses one.
    pub lib_name: String,
}

/// A power symbol.
#[derive(Debug)]
pub struct Power {
    pub net: String,
    /// Connection point.
    pub at: Pt,
    pub rot: i32,
    pub lib: String,
    pub reference: String,
    pub uuid: String,
    /// Displayed net name, where it differs from the symbol's.
    pub value: String,
    pub val_at: Option<Anchor>,
    pub hide_value: bool,
    pub mirror: String,
}

#[derive(Debug)]
pub struct Label {
    pub text: String,
    pub at: Pt,
    pub rot: i32,
    /// `local`, `global` or `hier`.
    pub kind: String,
    pub shape: String,
    pub uuid: String,
    pub justify: String,
}

#[derive(Debug)]
pub struct Text {
    pub text: String,
    pub at: Pt,
    pub rot: i32,
    pub size: i64,
    pub bold: bool,
    pub justify: String,
    pub uuid: String,
}

#[derive(Debug)]
pub struct Rect {
    pub start: Pt,
    pub end: Pt,
    pub uuid: String,
}

/// One sheet.
#[derive(Debug)]
pub struct Design {
    pub title: String,
    pub paper: String,
    pub rev: String,
    pub company: String,
    pub date: String,
    pub comments: Vec<String>,
    pub parts: Vec<Part>,
    pub power: Vec<Power>,
    pub wires: Vec<Vec<Pt>>,
    pub labels: Vec<Label>,
    pub nc: Vec<Pt>,
    pub junctions: Vec<Pt>,
    pub texts: Vec<Text>,
    pub rects: Vec<Rect>,
    /// Symbol nodes of the source file, kept as they are.
    pub lib_symbols: Vec<(String, Sexp)>,
    /// Nodes that are kept without being understood.
    pub extra_nodes: Vec<Sexp>,
    pub wire_uuids: Vec<String>,
    pub uuid: String,
    pub sheet_path_uuid: String,
    pub project: String,
}

#[verifier::ext_equal]
pub struct AnchorV {
    pub at: Pt,
    pub rest: Seq<JsonV>,
}

#[verifier::ext_equal]
pub struct PartV {
    pub id: Seq<char>,
    pub lib: Seq<char>,
    pub at: Pt,
    pub rot: int,
    pub mirror: Seq<char>,
    pub value: Seq<char>,
    pub unit: int,
    pub footprint: Seq<char>,
    pub dnp: bool,
    pub fields: Seq<(Seq<char>, JsonV)>,
    pub ref_at: Option<AnchorV>,
    pub val_at: Option<AnchorV>,
    pub hide_value: bool,
    pub uuid: Seq<char>,
    pub lib_name: Seq<char>,
}

#[verifier::ext_equal]
pub struct PowerV {
    pub net: Seq<char>,
    pub at: Pt,
    pub rot: int,
    pub lib: Seq<char>,
    pub reference: Seq<char>,
    pub uuid: Seq<char>,
    pub value: Seq<char>,
    pub val_at: Option<AnchorV>,
    pub hide_value: bool,
    pub mirror: Seq<char>,
}

#[verifier::ext_equal]
pub struct LabelV {
    pub text: Seq<char>,
    pub at: Pt,
    pub rot: int,
    pub kind: Seq<char>,
    pub shape: Seq<char>,
    pub uuid: Seq<char>,
    pub justify: Seq<char>,
}

#[verifier::ext_equal]
pub struct TextV {
    pub text: Seq<char>,
    pub at: Pt,
    pub rot: int,
    pub size: int,
    pub bold: bool,
    pub justify: Seq<char>,
    pub uuid: Seq<char>,
}

#[verifier::ext_equal]
pub struct RectV {
    pub start: Pt,
    pub end: Pt,
    pub uuid: Seq<char>,
}

#[verifier::ext_equal]
pub struct DesignV {
    pub title: Seq<char>,
    pub paper: Seq<char>,
    pub rev: Seq<char>,
    pub company: Seq<char>,
    pub date: Seq<char>,
    pub comments: Seq<Seq<char>>,
    pub parts: Seq<PartV>,
    pub power: Seq<PowerV>,
    pub wires: Seq<Seq<Pt>>,
    pub labels: Seq<LabelV>,
    pub nc: Seq<Pt>,
    pub junctions: Seq<Pt>,
    pub texts: Seq<TextV>,
    pub rects: Seq<RectV>,
    pub lib_symbols: Seq<(Seq<char>, SexpV)>,
    pub extra_nodes: Seq<SexpV>,
    pub wire_uuids: Seq<Seq<char>>,
    pub uuid: Seq<char>,
    pub sheet_path_uuid: Seq<char>,
    pub project: Seq<char>,
}

impl View for Anchor {
    type V = AnchorV;

    open spec fn view(&self) -> AnchorV {
        AnchorV { at: self.at, rest: json::values_v(self.rest@) }
    }
}

pub open spec fn anchor_v(a: Option<Anchor>) -> Option<AnchorV> {
    match a {
        Some(x) => Some(x@),
        None => None,
    }
}

impl View for Part {
    type V = PartV;

    open spec fn view(&self) -> PartV {
        PartV {
            id: self.id@,
            lib: self.lib@,
            at: self.at,
            rot: self.rot as int,
            mirror: self.mirror@,
            value: self.value@,
            unit: self.unit as int,
            footprint: self.footprint@,
            dnp: self.dnp,
            fields: json::entries_v(self.fields@),
            ref_at: anchor_v(self.ref_at),
            val_at: anchor_v(self.val_at),
            hide_value: self.hide_value,
            uuid: self.uuid@,
            lib_name: self.lib_name@,
        }
    }
}

impl View for Power {
    type V = PowerV;

    open spec fn view(&self) -> PowerV {
        PowerV {
            net: self.net@,
            at: self.at,
            rot: self.rot as int,
            lib: self.lib@,
            reference: self.reference@,
            uuid: self.uuid@,
            value: self.value@,
            val_at: anchor_v(self.val_at),
            hide_value: self.hide_value,
            mirror: self.mirror@,
        }
    }
}

impl View for Label {
    type V = LabelV;

    open spec fn view(&self) -> LabelV {
        LabelV {
            text: self.text@,
            at: self.at,
            rot: self.rot as int,
            kind: self.kind@,
            shape: self.shape@,
            uuid: self.uuid@,
            justify: self.justify@,
        }
    }
}

impl View for Text {
    type V = TextV;

    open spec fn view(&self) -> TextV {
        TextV {
            text: self.text@,
            at: self.at,
            rot: self.rot as int,
            size: self.size as int,
            bold: self.bold,
            justify: self.justify@,
            uuid: self.uuid@,
        }
    }
}

impl View for Rect {
    type V = RectV;

    open spec fn view(&self) -> RectV {
        RectV { start: self.start, end: self.end, uuid: self.uuid@ }
    }
}

pub open spec fn parts_v(v: Seq<Part>) -> Seq<PartV> {
    Seq::new(v.len(), |i: int| v[i]@)
}

pub open spec fn powers_v(v: Seq<Power>) -> Seq<PowerV> {
    Seq::new(v.len(), |i: int| v[i]@)
}

pub open spec fn labels_v(v: Seq<Label>) -> Seq<LabelV> {
    Seq::new(v.len(), |i: int| v[i]@)
}

pub open spec fn texts_v(v: Seq<Text>) -> Seq<TextV> {
    Seq::new(v.len(), |i: int| v[i]@)
}

pub open spec fn rects_v(v: Seq<Rect>) -> Seq<RectV> {
    Seq::new(v.len(), |i: int| v[i]@)
}

pub open spec fn wires_v(v: Seq<Vec<Pt>>) -> Seq<Seq<Pt>> {
    Seq::new(v.len(), |i: int| v[i]@)
}

impl View for Design {
    type V = DesignV;

    open spec fn view(&self) -> DesignV {
        DesignV {
            title: self.title@,
            paper: self.paper@,
            rev: self.rev@,
            company: self.company@,
            date: self.date@,
            comments: text::views(self.comments@),
            parts: parts_v(self.parts@),
            power: powers_v(self.power@),
            wires: wires_v(self.wires@),
            labels: labels_v(self.labels@),
            nc: self.nc@,
            junctions: self.junctions@,
            texts: texts_v(self.texts@),
            rects: rects_v(self.rects@),
            lib_symbols: sexp::named_v(self.lib_symbols@),
            extra_nodes: sexp::nodes_v(self.extra_nodes@),
            wire_uuids: text::views(self.wire_uuids@),
            uuid: self.uuid@,
            sheet_path_uuid: self.sheet_path_uuid@,
            project: self.project@,
        }
    }
}

impl DesignV {
    /// A sheet with nothing on it.
    pub open spec fn empty() -> DesignV {
        DesignV {
            title: Seq::empty(),
            paper: "A4"@,
            rev: Seq::empty(),
            company: Seq::empty(),
            date: Seq::empty(),
            comments: Seq::empty(),
            parts: Seq::empty(),
            power: Seq::empty(),
            wires: Seq::empty(),
            labels: Seq::empty(),
            nc: Seq::empty(),
            junctions: Seq::empty(),
            texts: Seq::empty(),
            rects: Seq::empty(),
            lib_symbols: Seq::empty(),
            extra_nodes: Seq::empty(),
            wire_uuids: Seq::empty(),
            uuid: Seq::empty(),
            sheet_path_uuid: Seq::empty(),
            project: "schagent"@,
        }
    }
}

pub open spec fn anchor_ok(a: Option<AnchorV>) -> bool {
    match a {
        Some(x) => on_sheet(x.at) && json::all_ok(x.rest),
        None => true,
    }
}

pub open spec fn part_ok(p: PartV) -> bool {
    &&& on_sheet(p.at)
    &&& json::fields_ok(p.fields)
    &&& anchor_ok(p.ref_at)
    &&& anchor_ok(p.val_at)
}

pub open spec fn power_ok(p: PowerV) -> bool {
    on_sheet(p.at) && anchor_ok(p.val_at)
}

/// Largest text size.
pub const SIZE_MAX: i64 = 900_000_000_000_000;

pub open spec fn text_ok(t: TextV) -> bool {
    on_sheet(t.at) && -SIZE_MAX <= t.size <= SIZE_MAX
}

pub open spec fn path_ok(p: Seq<Pt>) -> bool {
    forall|i: int| 0 <= i < p.len() ==> on_sheet(#[trigger] p[i])
}

impl DesignV {
    /// Coordinates lie on the sheet, and numbers can be written.
    pub open spec fn ok(&self) -> bool {
        &&& forall|i: int| 0 <= i < self.parts.len() ==> part_ok(#[trigger] self.parts[i])
        &&& forall|i: int| 0 <= i < self.power.len() ==> power_ok(#[trigger] self.power[i])
        &&& forall|i: int| 0 <= i < self.wires.len() ==> path_ok(#[trigger] self.wires[i])
        &&& forall|i: int| 0 <= i < self.labels.len() ==> on_sheet((#[trigger] self.labels[i]).at)
        &&& path_ok(self.nc)
        &&& path_ok(self.junctions)
        &&& forall|i: int|
            0 <= i < self.texts.len() ==> text_ok(#[trigger] self.texts[i])
        &&& forall|i: int|
            0 <= i < self.rects.len() ==> on_sheet((#[trigger] self.rects[i]).start) && on_sheet(
                self.rects[i].end,
            )
        &&& forall|i: int|
            0 <= i < self.lib_symbols.len() ==> sexp::ok((#[trigger] self.lib_symbols[i]).1)
        &&& sexp::all_ok(self.extra_nodes)
    }
}

impl Design {
    pub fn new() -> (d: Design)
        ensures
            d@ == DesignV::empty(),
            d@.ok(),
    {
        let d = Design {
            title: String::new(),
            paper: "A4".to_owned(),
            rev: String::new(),
            company: String::new(),
            date: String::new(),
            comments: Vec::new(),
            parts: Vec::new(),
            power: Vec::new(),
            wires: Vec::new(),
            labels: Vec::new(),
            nc: Vec::new(),
            junctions: Vec::new(),
            texts: Vec::new(),
            rects: Vec::new(),
            lib_symbols: Vec::new(),
            extra_nodes: Vec::new(),
            wire_uuids: Vec::new(),
            uuid: String::new(),
            sheet_path_uuid: String::new(),
            project: "schagent".to_owned(),
        };
        assert(d@ =~= DesignV::empty());
        d
    }
}

/// `uuid::Uuid::new_v4`, written out: a random identifier, of which only the form is claimed: it is
/// written in lower case with four hyphens.
#[verifier::external_body]
pub fn new_uuid() -> (r: String)
    ensures
        ids::is_uuid(r@),
{
    uuid::Uuid::new_v4().to_string()
}

} // verus!
