//! The JSON form of a design, in which it is shown and edited.
use crate::extract::{to_i32, to_units, to_whole};
use crate::extract;
use crate::geom;
use crate::geom::Pt;
use crate::json;
use crate::json::{dup_entries, dup_values, entry, put_entry, take_out, Json, JsonV};
use crate::model;
use crate::model::{
    Anchor, AnchorV, Design, DesignV, Label, LabelV, Part, PartV, Power, PowerV, Rect, RectV, Text,
    TextV, SHEET_MAX,
};
use crate::names;
use crate::names::name_set;
use crate::number;
use crate::number::NUM_MAX;
use crate::order_map;
use crate::sexp;
use crate::sexp::{dup_named, dup_nodes, SexpV};
use crate::text;
use crate::text::{same, Line};
use vstd::prelude::*;

verus! {

// ---------------------------------------------------------------- units
/// A signed quotient, rounded to the nearest integer and to the even one at the half.
pub open spec fn even_quotient(m: int, d: int) -> int {
    if m < 0 {
        -number::nearest(-m, d)
    } else {
        number::nearest(m, d)
    }
}

pub(crate) fn divide_even(m: i128, d: i128) -> (r: i128)
    requires
        d > 0,
        -0x1_0000_0000_0000_0000 <= m <= 0x1_0000_0000_0000_0000,
        d <= 0x1_0000_0000_0000_0000,
    ensures
        r == even_quotient(m as int, d as int),
        -0x1_0000_0000_0000_0000 <= r <= 0x1_0000_0000_0000_0000,
{
    let a: i128 = if m < 0 { -m } else { m };
    let q: i128 = a / d;
    let t: i128 = a % d;
    assert(0 <= q && q * d <= a) by (nonlinear_arith)
        requires
            q == a / d,
            a >= 0,
            d > 0,
    ;
    assert(q <= a) by (nonlinear_arith)
        requires
            q * d <= a,
            d >= 1,
            q >= 0,
    ;
    let up = !(2 * t < d || (2 * t == d && q % 2 == 0));
    assert(up ==> q + 1 <= a + 0) by (nonlinear_arith)
        requires
            q == a / d,
            t == a % d,
            a >= 0,
            d > 0,
            up ==> 2 * t >= d && (2 * t > d || q % 2 != 0),
    {
        if up {
            assert(a == q * d + t);
            if d == 1 {
                assert(t == 0);
            } else {
                assert(q * d >= q);
                assert(t >= 1);
            }
        }
    }
    let n: i128 = if up { q + 1 } else { q };
    if m < 0 {
        -n
    } else {
        n
    }
}

/// A number of millionths as whole number, at the half the even one.
pub fn round_py(v: i64) -> (r: i64)
    requires
        -NUM_MAX <= v <= NUM_MAX,
    ensures
        r == even_quotient(v as int, 1_000_000),
{
    divide_even(v as i128, 1_000_000) as i64
}

/// The multiple of a step that is nearest to a coordinate.
pub open spec fn snapped(v: int, g: int) -> int {
    even_quotient(v, g) * g
}

pub fn snap(v: i64, g: i64) -> (r: i64)
    requires
        0 < g <= SHEET_MAX,
        model::in_sheet(v as int),
    ensures
        r == snapped(v as int, g as int),
{
    let q: i128 = divide_even(v as i128, g as i128);
    proof {
        let a = geom::mag(v as int);
        let m = if q < 0 { -q as int } else { q as int };
        let gi = g as int;
        assert(m == number::nearest(a, gi));
        assert(m * gi <= a + gi) by (nonlinear_arith)
            requires
                gi > 0,
                a >= 0,
                m == number::nearest(a, gi),
        {
            assert(a == (a / gi) * gi + a % gi);
            assert((a / gi + 1) * gi == (a / gi) * gi + gi);
        }
        assert(q * gi == m * gi || q * gi == -(m * gi)) by (nonlinear_arith)
            requires
                q == m || q == -m,
        ;
        assert(0 <= m * gi) by (nonlinear_arith)
            requires
                m >= 0,
                gi > 0,
        ;
    }
    (q * g as i128) as i64
}

/// Grid steps in millionths as a coordinate, to a ten-thousandth of a millimetre.
pub open spec fn from_grid(u: int) -> int {
    even_quotient(u * 127, 10_000) * 10
}

/// Grid steps (millionths) to a coordinate.
pub fn mm(u: i64) -> (r: i64)
    requires
        -NUM_MAX <= u <= NUM_MAX,
    ensures
        r == from_grid(u as int),
        model::in_sheet(r as int),
{
    let q: i128 = divide_even(u as i128 * 127, 10_000);
    (q * 10) as i64
}

/// A coordinate as thousandths of a grid step.
pub open spec fn to_grid(v: int) -> int {
    even_quotient(v, 127)
}

/// A coordinate to thousandths of a grid step.
pub fn gu(v: i64) -> (r: i64)
    requires
        -2 * SHEET_MAX <= v <= 2 * SHEET_MAX,
    ensures
        r == to_grid(v as int),
        -2 * 9_000_000_000_000 <= r <= 2 * 9_000_000_000_000,
        model::in_sheet(v as int) ==> -9_000_000_000_000 <= r <= 9_000_000_000_000,
{
    divide_even(v as i128, 127) as i64
}

/// Coordinates on a hundredth of a grid step survive the way to grid steps and back.
pub proof fn grid_steps_keep_coordinates(v: int)
    requires
        v % 1270 == 0,
    ensures
        from_grid(to_grid(v) * 1000) == v,
{
    let k = v / 1270;
    assert(v == k * 1270);
    assert(to_grid(v) == k * 10);
    assert(k * 10 * 1000 * 127 == k * 1_270_000);
    assert(even_quotient(k * 1_270_000, 10_000) == k * 127);
}

/// A number of millionths; one without a fraction is an integer.
pub open spec fn num_json(m: int) -> JsonV {
    if m % 1_000_000 == 0 {
        JsonV::Int(m / 1_000_000)
    } else {
        JsonV::Dec(m)
    }
}

/// A JSON number that stays an integer when the value is integral.
pub fn num(m: i64) -> (r: Json)
    requires
        -NUM_MAX <= m <= NUM_MAX,
    ensures
        r@ == num_json(m as int),
        json::ok(r@),
{
    let a: i64 = if m < 0 { -m } else { m };
    if a % 1_000_000 == 0 {
        let k: i64 = a / 1_000_000;
        if m >= 0 {
            Json::Int(k)
        } else {
            assert(-k as int == m as int / 1_000_000);
            Json::Int(-k)
        }
    } else {
        Json::Dec(m)
    }
}

pub open spec fn grid_num(v: int) -> JsonV {
    num_json(to_grid(v) * 1000)
}

fn grid_json(v: i64) -> (r: Json)
    requires
        model::in_sheet(v as int),
    ensures
        r@ == grid_num(v as int),
        json::ok(r@),
{
    num(gu(v) * 1000)
}

/// The number at a position of a list, zero where there is none.
pub open spec fn num_item(v: Seq<JsonV>, i: int) -> int {
    if 0 <= i < v.len() && json::num_in(v[i]) is Some {
        json::num_in(v[i])->0
    } else {
        0
    }
}

pub(crate) fn number_item(v: &Vec<Json>, i: usize) -> (r: i64)
    requires
        json::all_ok(json::values_v(v@)),
    ensures
        r == num_item(json::values_v(v@), i as int),
        -NUM_MAX <= r <= NUM_MAX,
{
    if i < v.len() {
        assert(json::values_v(v@)[i as int] == v@[i as int]@);
        assert(json::ok(json::values_v(v@)[i as int]));
        match v[i].as_num() {
            Some(x) => x,
            None => 0,
        }
    } else {
        0
    }
}

pub open spec fn point_of(j: JsonV) -> Pt {
    let v = json::items_of(j);
    Pt { x: from_grid(num_item(v, 0)) as i64, y: from_grid(num_item(v, 1)) as i64 }
}

/// A JSON point in grid steps as a point of the sheet.
pub fn pt_mm(p: &Json) -> (r: Pt)
    requires
        json::ok(p@),
    ensures
        r == point_of(p@),
        model::on_sheet(r),
{
    match p.as_array() {
        Some(v) => Pt { x: mm(number_item(v, 0)), y: mm(number_item(v, 1)) },
        None => Pt { x: mm(0), y: mm(0) },
    }
}

pub open spec fn point_json(p: Pt) -> JsonV {
    JsonV::Arr(seq![grid_num(p.x as int), grid_num(p.y as int)])
}

/// A point of the sheet in grid steps.
pub fn pt_gu(p: Pt) -> (r: Json)
    requires
        model::on_sheet(p),
    ensures
        r@ == point_json(p),
        json::ok(r@),
{
    let mut v: Vec<Json> = Vec::new();
    v.push(grid_json(p.x));
    v.push(grid_json(p.y));
    proof {
        json::lemma_arr_view(v);
        assert(json::values_v(v@) =~= seq![grid_num(p.x as int), grid_num(p.y as int)]);
        json::lemma_ok_arr(json::values_v(v@));
    }
    Json::Arr(v)
}

pub open spec fn anchor_of(j: Option<JsonV>) -> Option<AnchorV> {
    match j {
        Some(JsonV::Arr(v)) => if v.len() == 0 {
            None
        } else {
            Some(
                AnchorV {
                    at: point_of(JsonV::Arr(v)),
                    rest: if v.len() <= 2 {
                        Seq::empty()
                    } else {
                        v.skip(2)
                    },
                },
            )
        },
        _ => None,
    }
}

/// A text anchor in grid steps; what follows the point is kept.
pub fn at_mm(a: Option<&Json>) -> (r: Option<Anchor>)
    requires
        a is Some ==> json::ok(a->0@),
    ensures
        model::anchor_v(r) == anchor_of(json::found_v(a)),
        model::anchor_ok(model::anchor_v(r)),
{
    let j = match a {
        Some(j) => j,
        None => {
            return None;
        },
    };
    match j.as_array() {
        Some(v) => {
            if v.len() == 0 {
                return None;
            }
            let at = pt_mm(j);
            let ghost vv = json::values_v(v@);
            let mut rest: Vec<Json> = Vec::new();
            let mut i: usize = 2;
            while i < v.len()
                invariant
                    i <= v@.len() || i == 2,
                    i >= 2,
                    vv == json::values_v(v@),
                    json::all_ok(vv),
                    rest@.len() == i - 2,
                    forall|k: int| 0 <= k < i - 2 ==> (#[trigger] rest@[k])@ == vv[k + 2],
                decreases v@.len() - i,
            {
                assert(vv[i as int] == v@[i as int]@);
                rest.push(v[i].dup());
                i += 1;
            }
            proof {
                let want = if vv.len() <= 2 {
                    Seq::empty()
                } else {
                    vv.skip(2)
                };
                assert(json::values_v(rest@) =~= want);
                assert(json::all_ok(want));
            }
            Some(Anchor { at, rest })
        },
        None => None,
    }
}

pub open spec fn anchor_json(a: AnchorV) -> JsonV {
    JsonV::Arr(seq![grid_num(a.at.x as int), grid_num(a.at.y as int)] + a.rest)
}

/// A text anchor in grid steps.
pub fn at_gu(a: &Anchor) -> (r: Json)
    requires
        model::on_sheet(a.at),
        json::all_ok(a@.rest),
    ensures
        r@ == anchor_json(a@),
        json::ok(r@),
{
    let mut v: Vec<Json> = Vec::new();
    v.push(grid_json(a.at.x));
    v.push(grid_json(a.at.y));
    let ghost want = seq![grid_num(a.at.x as int), grid_num(a.at.y as int)] + a@.rest;
    let mut i: usize = 0;
    while i < a.rest.len()
        invariant
            i <= a.rest@.len(),
            want == seq![grid_num(a.at.x as int), grid_num(a.at.y as int)] + a@.rest,
            json::all_ok(a@.rest),
            v@.len() == i + 2,
            forall|k: int|
                0 <= k < i + 2 ==> (#[trigger] v@[k])@ == want[k] && json::ok(want[k]),
        decreases a.rest@.len() - i,
    {
        assert(a@.rest[i as int] == a.rest@[i as int]@);
        assert(json::ok(a@.rest[i as int]));
        v.push(a.rest[i].dup());
        i += 1;
    }
    proof {
        json::lemma_arr_view(v);
        assert(json::values_v(v@) =~= want);
        json::lemma_ok_arr(json::values_v(v@));
    }
    Json::Arr(v)
}

// ---------------------------------------------------------------- objects
/// An object under construction.
pub struct Fields {
    pub v: Vec<(String, Json)>,
}

impl Fields {
    pub open spec fn view(&self) -> Seq<(Seq<char>, JsonV)> {
        json::entries_v(self.v@)
    }

    pub fn new() -> (r: Fields)
        ensures
            r@ == Seq::<(Seq<char>, JsonV)>::empty(),
            json::fields_ok(r@),
    {
        let r = Fields { v: Vec::new() };
        assert(r@ =~= Seq::<(Seq<char>, JsonV)>::empty());
        r
    }

    pub fn add(self, k: &str, x: Json) -> (r: Fields)
        requires
            json::fields_ok(self@),
            json::ok(x@),
        ensures
            r@ == self@.push((k@, x@)),
            json::fields_ok(r@),
    {
        let ghost s0 = self@;
        let ghost xv = x@;
        let mut v = self.v;
        v.push((k.to_owned(), x));
        let r = Fields { v };
        assert(r@ =~= s0.push((k@, xv)));
        r
    }

    pub fn text(self, k: &str, t: &str) -> (r: Fields)
        requires
            json::fields_ok(self@),
        ensures
            r@ == self@.push((k@, JsonV::Str(t@))),
            json::fields_ok(r@),
    {
        self.add(k, Json::Str(t.to_owned()))
    }

    pub fn text_unless(self, skip: bool, k: &str, t: &str) -> (r: Fields)
        requires
            json::fields_ok(self@),
        ensures
            r@ == self@ + given(!skip, k@, JsonV::Str(t@)),
            json::fields_ok(r@),
    {
        let ghost s0 = self@;
        if skip {
            assert(s0 + given(!skip, k@, JsonV::Str(t@)) =~= s0);
            self
        } else {
            let r = self.text(k, t);
            assert(r@ =~= s0 + given(!skip, k@, JsonV::Str(t@)));
            r
        }
    }

    pub fn number_if(self, keep: bool, k: &str, n: i64) -> (r: Fields)
        requires
            json::fields_ok(self@),
        ensures
            r@ == self@ + given(keep, k@, JsonV::Int(n as int)),
            json::fields_ok(r@),
    {
        let ghost s0 = self@;
        if keep {
            let r = self.add(k, Json::Int(n));
            assert(r@ =~= s0 + given(keep, k@, JsonV::Int(n as int)));
            r
        } else {
            assert(s0 + given(keep, k@, JsonV::Int(n as int)) =~= s0);
            self
        }
    }

    pub fn flag_if(self, keep: bool, k: &str) -> (r: Fields)
        requires
            json::fields_ok(self@),
        ensures
            r@ == self@ + given(keep, k@, JsonV::Bool(true)),
            json::fields_ok(r@),
    {
        let ghost s0 = self@;
        if keep {
            let r = self.add(k, Json::Bool(true));
            assert(r@ =~= s0 + given(keep, k@, JsonV::Bool(true)));
            r
        } else {
            assert(s0 + given(keep, k@, JsonV::Bool(true)) =~= s0);
            self
        }
    }

    pub fn done(self) -> (r: Json)
        requires
            json::fields_ok(self@),
        ensures
            r@ == JsonV::Obj(self@),
            json::ok(r@),
    {
        proof {
            json::lemma_obj_view(self.v);
            json::lemma_ok_obj(self@);
        }
        Json::Obj(self.v)
    }
}

pub open spec fn given(keep: bool, k: Seq<char>, v: JsonV) -> Seq<(Seq<char>, JsonV)> {
    if keep {
        seq![(k, v)]
    } else {
        Seq::empty()
    }
}

pub open spec fn given_text(k: Seq<char>, t: Seq<char>) -> Seq<(Seq<char>, JsonV)> {
    given(t.len() > 0, k, JsonV::Str(t))
}

pub open spec fn given_anchor(k: Seq<char>, a: Option<AnchorV>) -> Seq<(Seq<char>, JsonV)> {
    match a {
        Some(x) => seq![(k, anchor_json(x))],
        None => Seq::empty(),
    }
}

fn add_anchor(f: Fields, k: &str, a: &Option<Anchor>) -> (r: Fields)
    requires
        json::fields_ok(f@),
        model::anchor_ok(model::anchor_v(*a)),
    ensures
        r@ == f@ + given_anchor(k@, model::anchor_v(*a)),
        json::fields_ok(r@),
{
    let ghost s0 = f@;
    match a {
        Some(x) => {
            let r = f.add(k, at_gu(x));
            assert(r@ =~= s0 + given_anchor(k@, model::anchor_v(*a)));
            r
        },
        None => {
            assert(s0 + given_anchor(k@, model::anchor_v(*a)) =~= s0);
            f
        },
    }
}

fn is_empty(t: &str) -> (r: bool)
    ensures
        r == (t@.len() == 0),
{
    t.unicode_len() == 0
}

pub open spec fn part_json(p: PartV) -> JsonV {
    JsonV::Obj(
        seq![
            ("id"@, JsonV::Str(p.id)),
            ("lib"@, JsonV::Str(p.lib)),
            ("at"@, point_json(p.at)),
            ("rot"@, JsonV::Int(p.rot)),
        ] + given_text("lib_name"@, p.lib_name) + given_text("mirror"@, p.mirror) + given_text(
            "value"@,
            p.value,
        ) + given(p.unit != 1, "unit"@, JsonV::Int(p.unit)) + given_text("footprint"@, p.footprint)
            + given(p.dnp, "dnp"@, JsonV::Bool(true)) + given(
            p.fields.len() > 0,
            "fields"@,
            JsonV::Obj(p.fields),
        ) + given_anchor("ref_at"@, p.ref_at) + given_anchor("val_at"@, p.val_at) + given(
            p.hide_value,
            "hide_value"@,
            JsonV::Bool(true),
        ),
    )
}

impl Part {
    pub fn to_json(&self) -> (r: Json)
        requires
            model::part_ok(self@),
        ensures
            r@ == part_json(self@),
            json::ok(r@),
    {
        let f = Fields::new().text("id", self.id.as_str()).text("lib", self.lib.as_str()).add(
            "at",
            pt_gu(self.at),
        ).add("rot", Json::Int(self.rot as i64));
        assert(f@ =~= seq![
            ("id"@, JsonV::Str(self.id@)),
            ("lib"@, JsonV::Str(self.lib@)),
            ("at"@, point_json(self.at)),
            ("rot"@, JsonV::Int(self.rot as int)),
        ]);
        let f = f.text_unless(is_empty(self.lib_name.as_str()), "lib_name", self.lib_name.as_str());
        let f = f.text_unless(is_empty(self.mirror.as_str()), "mirror", self.mirror.as_str());
        let f = f.text_unless(is_empty(self.value.as_str()), "value", self.value.as_str());
        let f = f.number_if(self.unit != 1, "unit", self.unit as i64);
        let f = f.text_unless(
            is_empty(self.footprint.as_str()),
            "footprint",
            self.footprint.as_str(),
        );
        let f = f.flag_if(self.dnp, "dnp");
        let ghost f0 = f@;
        let f = if self.fields.len() > 0 {
            let x = Fields { v: dup_entries(&self.fields) }.done();
            assert(x@ == JsonV::Obj(self@.fields));
            f.add("fields", x)
        } else {
            f
        };
        assert(f@ =~= f0 + given(
            self@.fields.len() > 0,
            "fields"@,
            JsonV::Obj(self@.fields),
        ));
        let f = add_anchor(f, "ref_at", &self.ref_at);
        let f = add_anchor(f, "val_at", &self.val_at);
        let f = f.flag_if(self.hide_value, "hide_value");
        f.done()
    }
}

pub open spec fn power_json(p: PowerV) -> JsonV {
    JsonV::Obj(
        seq![("net"@, JsonV::Str(p.net)), ("at"@, point_json(p.at))] + given(
            p.rot != 0,
            "rot"@,
            JsonV::Int(p.rot),
        ) + given(
            p.lib.len() > 0 && p.lib != "power:"@ + p.net,
            "lib"@,
            JsonV::Str(p.lib),
        ) + given_text("mirror"@, p.mirror),
    )
}

impl Power {
    pub fn to_json(&self) -> (r: Json)
        requires
            model::power_ok(self@),
        ensures
            r@ == power_json(self@),
            json::ok(r@),
    {
        let f = Fields::new().text("net", self.net.as_str()).add("at", pt_gu(self.at));
        assert(f@ =~= seq![("net"@, JsonV::Str(self.net@)), ("at"@, point_json(self.at))]);
        let own = Line::of("power:").add(self.net.as_str()).done();
        let f = f.number_if(self.rot != 0, "rot", self.rot as i64);
        let skip = is_empty(self.lib.as_str()) || same(self.lib.as_str(), own.as_str());
        let f = f.text_unless(skip, "lib", self.lib.as_str());
        f.text_unless(is_empty(self.mirror.as_str()), "mirror", self.mirror.as_str()).done()
    }
}

pub open spec fn label_json(l: LabelV) -> JsonV {
    JsonV::Obj(
        seq![("text"@, JsonV::Str(l.text)), ("at"@, point_json(l.at))] + given(
            l.rot != 0,
            "rot"@,
            JsonV::Int(l.rot),
        ) + given(l.kind != "local"@, "type"@, JsonV::Str(l.kind)) + given(
            l.kind != "local"@ && l.shape != "input"@,
            "shape"@,
            JsonV::Str(l.shape),
        ),
    )
}

impl Label {
    pub fn to_json(&self) -> (r: Json)
        requires
            model::on_sheet(self.at),
        ensures
            r@ == label_json(self@),
            json::ok(r@),
    {
        let f = Fields::new().text("text", self.text.as_str()).add("at", pt_gu(self.at));
        assert(f@ =~= seq![("text"@, JsonV::Str(self.text@)), ("at"@, point_json(self.at))]);
        let local = same(self.kind.as_str(), "local");
        f.number_if(self.rot != 0, "rot", self.rot as i64).text_unless(
            local,
            "type",
            self.kind.as_str(),
        ).text_unless(
            local || same(self.shape.as_str(), "input"),
            "shape",
            self.shape.as_str(),
        ).done()
    }
}

pub open spec fn text_json(t: TextV) -> JsonV {
    JsonV::Obj(
        seq![("text"@, JsonV::Str(t.text)), ("at"@, point_json(t.at))] + given(
            t.rot != 0,
            "rot"@,
            JsonV::Int(t.rot),
        ) + given(t.size != 127_000, "size"@, JsonV::Dec(t.size * 10)) + given(
            t.bold,
            "bold"@,
            JsonV::Bool(true),
        ) + given(t.justify != "left bottom"@, "justify"@, JsonV::Str(t.justify)),
    )
}

impl Text {
    pub fn to_json(&self) -> (r: Json)
        requires
            model::text_ok(self@),
        ensures
            r@ == text_json(self@),
            json::ok(r@),
    {
        let f = Fields::new().text("text", self.text.as_str()).add("at", pt_gu(self.at));
        assert(f@ =~= seq![("text"@, JsonV::Str(self.text@)), ("at"@, point_json(self.at))]);
        let f = f.number_if(self.rot != 0, "rot", self.rot as i64);
        let ghost f0 = f@;
        let f = if self.size != 127_000 {
            f.add("size", Json::Dec(self.size * 10))
        } else {
            f
        };
        assert(f@ =~= f0 + given(
            self.size != 127_000,
            "size"@,
            JsonV::Dec(self.size * 10),
        ));
        f.flag_if(self.bold, "bold").text_unless(
            same(self.justify.as_str(), "left bottom"),
            "justify",
            self.justify.as_str(),
        ).done()
    }
}

pub open spec fn rect_json(r: RectV) -> JsonV {
    JsonV::Obj(seq![("start"@, point_json(r.start)), ("end"@, point_json(r.end))])
}

impl Rect {
    pub fn to_json(&self) -> (r: Json)
        requires
            model::on_sheet(self.start),
            model::on_sheet(self.end),
        ensures
            r@ == rect_json(self@),
            json::ok(r@),
    {
        let f = Fields::new().add("start", pt_gu(self.start)).add("end", pt_gu(self.end));
        assert(f@ =~= seq![("start"@, point_json(self.start)), ("end"@, point_json(self.end))]);
        f.done()
    }
}

// ---------------------------------------------------------------- a whole design
/// An item tagged with an identifier: a letter and its place, counted from one.
pub open spec fn tag_of(letter: Seq<char>, i: int) -> Seq<char> {
    letter + text::digits((i + 1) as nat)
}

/// A value tagged as the only field of an object.
pub open spec fn boxed(ids: bool, letter: Seq<char>, i: int, k: Seq<char>, v: JsonV) -> JsonV {
    if ids {
        JsonV::Obj(seq![("id"@, JsonV::Str(tag_of(letter, i))), (k, v)])
    } else {
        v
    }
}

/// An object tagged by a leading field.
pub open spec fn labelled(ids: bool, letter: Seq<char>, i: int, v: JsonV) -> JsonV {
    if ids {
        JsonV::Obj(seq![("id"@, JsonV::Str(tag_of(letter, i)))] + json::entries_of(v))
    } else {
        v
    }
}

pub open spec fn path_json(w: Seq<Pt>) -> JsonV {
    JsonV::Arr(Seq::new(w.len(), |i: int| point_json(w[i])))
}

pub open spec fn text_items(v: Seq<Seq<char>>) -> Seq<JsonV> {
    Seq::new(v.len(), |i: int| JsonV::Str(v[i]))
}

pub open spec fn node_tags(v: Seq<SexpV>) -> Seq<Seq<char>> {
    Seq::new(v.len(), |i: int| sexp::tag_of(v[i]))
}

pub open spec fn design_head(d: DesignV) -> Seq<(Seq<char>, JsonV)> {
    seq![("title"@, JsonV::Str(d.title)), ("paper"@, JsonV::Str(d.paper))] + given_text(
        "rev"@,
        d.rev,
    ) + given_text("company"@, d.company) + given_text("date"@, d.date) + given(
        d.comments.len() > 0,
        "comments"@,
        JsonV::Arr(text_items(d.comments)),
    )
}

pub open spec fn part_list(d: DesignV) -> Seq<JsonV> {
    Seq::new(d.parts.len(), |i: int| part_json(d.parts[i]))
}

pub open spec fn power_list(d: DesignV, ids: bool) -> Seq<JsonV> {
    Seq::new(d.power.len(), |i: int| labelled(ids, "p"@, i, power_json(d.power[i])))
}

pub open spec fn wire_list(d: DesignV, ids: bool) -> Seq<JsonV> {
    Seq::new(d.wires.len(), |i: int| boxed(ids, "w"@, i, "pts"@, path_json(d.wires[i])))
}

pub open spec fn label_list(d: DesignV, ids: bool) -> Seq<JsonV> {
    Seq::new(d.labels.len(), |i: int| labelled(ids, "l"@, i, label_json(d.labels[i])))
}

pub open spec fn nc_list(d: DesignV, ids: bool) -> Seq<JsonV> {
    Seq::new(d.nc.len(), |i: int| boxed(ids, "n"@, i, "at"@, point_json(d.nc[i])))
}

pub open spec fn note_list(d: DesignV, ids: bool) -> Seq<JsonV> {
    Seq::new(d.texts.len(), |i: int| labelled(ids, "t"@, i, text_json(d.texts[i])))
}

pub open spec fn rect_list(d: DesignV, ids: bool) -> Seq<JsonV> {
    Seq::new(d.rects.len(), |i: int| labelled(ids, "r"@, i, rect_json(d.rects[i])))
}

pub open spec fn design_tail(d: DesignV) -> Seq<(Seq<char>, JsonV)> {
    given(
        d.extra_nodes.len() > 0,
        "_preserved"@,
        JsonV::Arr(
            text_items(names::distinct(node_tags(d.extra_nodes), d.extra_nodes.len() as int)),
        ),
    )
}

/// The JSON form of a design; with identifiers, everything but parts is tagged.
pub open spec fn design_json(d: DesignV, ids: bool) -> JsonV {
    JsonV::Obj(
        design_head(d) + seq![
            ("parts"@, JsonV::Arr(part_list(d))),
            ("power"@, JsonV::Arr(power_list(d, ids))),
            ("wires"@, JsonV::Arr(wire_list(d, ids))),
            ("labels"@, JsonV::Arr(label_list(d, ids))),
            ("nc"@, JsonV::Arr(nc_list(d, ids))),
            ("texts"@, JsonV::Arr(note_list(d, ids))),
            ("rects"@, JsonV::Arr(rect_list(d, ids))),
        ] + design_tail(d),
    )
}

pub(crate) fn list_json(v: Vec<Json>) -> (r: Json)
    requires
        json::all_ok(json::values_v(v@)),
    ensures
        r@ == JsonV::Arr(json::values_v(v@)),
        json::ok(r@),
{
    proof {
        json::lemma_arr_view(v);
        json::lemma_ok_arr(json::values_v(v@));
    }
    Json::Arr(v)
}

fn tag_text(letter: &str, i: usize) -> (r: String)
    ensures
        r@ == tag_of(letter@, i as int),
{
    Line::of(letter).count(i as u128 + 1).done()
}

fn box_up(ids: bool, letter: &str, i: usize, k: &str, v: Json) -> (r: Json)
    requires
        json::ok(v@),
    ensures
        r@ == boxed(ids, letter@, i as int, k@, v@),
        json::ok(r@),
{
    if ids {
        let ghost vv = v@;
        let t = tag_text(letter, i);
        let f = Fields::new().text("id", t.as_str()).add(k, v);
        assert(f@ =~= seq![("id"@, JsonV::Str(tag_of(letter@, i as int))), (k@, vv)]);
        f.done()
    } else {
        v
    }
}

fn label_up(ids: bool, letter: &str, i: usize, v: Json) -> (r: Json)
    requires
        json::ok(v@),
        v@ is Obj,
    ensures
        r@ == labelled(ids, letter@, i as int, v@),
        json::ok(r@),
{
    if ids {
        let ghost vv = v@;
        let t = tag_text(letter, i);
        let mut f = Fields::new().text("id", t.as_str());
        let ghost base = f@;
        match v.as_object() {
            Some(o) => {
                let ghost es = json::entries_v(o@);
                let mut j: usize = 0;
                assert(f@ =~= base + es.take(0));
                while j < o.len()
                    invariant
                        j <= o@.len(),
                        es == json::entries_v(o@),
                        json::fields_ok(es),
                        json::fields_ok(f@),
                        f@ == base + es.take(j as int),
                    decreases o@.len() - j,
                {
                    assert(es[j as int] == (o@[j as int].0@, o@[j as int].1@));
                    assert(json::ok(es[j as int].1));
                    f = f.add(o[j].0.as_str(), o[j].1.dup());
                    assert(es.take(j + 1) =~= es.take(j as int).push(es[j as int]));
                    assert(f@ =~= base + es.take(j + 1));
                    j += 1;
                }
                assert(es.take(es.len() as int) =~= es);
                assert(f@ =~= seq![("id"@, JsonV::Str(tag_of(letter@, i as int)))] + es);
                f.done()
            },
            None => f.done(),
        }
    } else {
        v
    }
}

pub(crate) fn texts_json(v: &Vec<String>) -> (r: Json)
    ensures
        r@ == JsonV::Arr(text_items(text::views(v@))),
        json::ok(r@),
{
    let mut out: Vec<Json> = Vec::new();
    let mut i: usize = 0;
    while i < v.len()
        invariant
            i <= v@.len(),
            out@.len() == i,
            forall|k: int| 0 <= k < i ==> (#[trigger] out@[k])@ == JsonV::Str(v@[k]@),
        decreases v@.len() - i,
    {
        out.push(Json::Str(v[i].clone()));
        i += 1;
    }
    assert(json::values_v(out@) =~= text_items(text::views(v@)));
    list_json(out)
}

fn wire_json(w: &Vec<Pt>) -> (r: Json)
    requires
        model::path_ok(w@),
    ensures
        r@ == path_json(w@),
        json::ok(r@),
{
    let mut out: Vec<Json> = Vec::new();
    let mut i: usize = 0;
    while i < w.len()
        invariant
            i <= w@.len(),
            model::path_ok(w@),
            out@.len() == i,
            forall|k: int|
                0 <= k < i ==> (#[trigger] out@[k])@ == point_json(w@[k]) && json::ok(out@[k]@),
        decreases w@.len() - i,
    {
        assert(model::on_sheet(w@[i as int]));
        out.push(pt_gu(w[i]));
        i += 1;
    }
    assert(json::values_v(out@) =~= Seq::new(w@.len(), |i: int| point_json(w@[i])));
    list_json(out)
}

impl Design {
    /// The first part with a reference.
    pub fn part(&self, reference: &str) -> (r: Option<&Part>)
        ensures
            match r {
                Some(p) => 0 <= first_part(self@.parts, reference@, 0) < self@.parts.len() && p@
                    == self@.parts[first_part(self@.parts, reference@, 0)],
                None => first_part(self@.parts, reference@, 0) == self@.parts.len(),
            },
    {
        let ghost pv = self@.parts;
        let mut i: usize = 0;
        while i < self.parts.len()
            invariant
                i <= self.parts@.len(),
                pv == self@.parts,
                first_part(pv, reference@, 0) == first_part(pv, reference@, i as int),
            decreases self.parts@.len() - i,
        {
            assert(pv[i as int] == self.parts@[i as int]@);
            if same(self.parts[i].id.as_str(), reference) {
                return Some(&self.parts[i]);
            }
            i += 1;
        }
        None
    }

    fn power_items(&self, ids: bool) -> (r: Json)
        requires
            self@.ok(),
        ensures
            r@ == JsonV::Arr(
                power_list(self@, ids),
            ),
            json::ok(r@),
    {
        let ghost want = power_list(self@, ids);
        let mut out: Vec<Json> = Vec::new();
        let mut i: usize = 0;
        while i < self.power.len()
            invariant
                i <= self.power@.len(),
                self@.ok(),
                want == power_list(self@, ids),
                out@.len() == i,
                forall|k: int|
                    0 <= k < i ==> (#[trigger] out@[k])@ == want[k] && json::ok(out@[k]@),
            decreases self.power@.len() - i,
        {
            assert(self@.power[i as int] == self.power@[i as int]@);
            assert(model::power_ok(self@.power[i as int]));
            let e = label_up(ids, "p", i, self.power[i].to_json());
            assert(e@ == want[i as int]);
            out.push(e);
            i += 1;
        }
        assert(json::values_v(out@) =~= want);
        list_json(out)
    }

    fn wire_items(&self, ids: bool) -> (r: Json)
        requires
            self@.ok(),
        ensures
            r@ == JsonV::Arr(
                wire_list(self@, ids),
            ),
            json::ok(r@),
    {
        let ghost want = wire_list(self@, ids);
        let mut out: Vec<Json> = Vec::new();
        let mut i: usize = 0;
        while i < self.wires.len()
            invariant
                i <= self.wires@.len(),
                self@.ok(),
                want == wire_list(self@, ids),
                out@.len() == i,
                forall|k: int|
                    0 <= k < i ==> (#[trigger] out@[k])@ == want[k] && json::ok(out@[k]@),
            decreases self.wires@.len() - i,
        {
            assert(self@.wires[i as int] == self.wires@[i as int]@);
            assert(model::path_ok(self@.wires[i as int]));
            let e = box_up(ids, "w", i, "pts", wire_json(&self.wires[i]));
            assert(e@ == want[i as int]);
            out.push(e);
            i += 1;
        }
        assert(json::values_v(out@) =~= want);
        list_json(out)
    }

    fn label_items(&self, ids: bool) -> (r: Json)
        requires
            self@.ok(),
        ensures
            r@ == JsonV::Arr(
                label_list(self@, ids),
            ),
            json::ok(r@),
    {
        let ghost want = label_list(self@, ids);
        let mut out: Vec<Json> = Vec::new();
        let mut i: usize = 0;
        while i < self.labels.len()
            invariant
                i <= self.labels@.len(),
                self@.ok(),
                want == label_list(self@, ids),
                out@.len() == i,
                forall|k: int|
                    0 <= k < i ==> (#[trigger] out@[k])@ == want[k] && json::ok(out@[k]@),
            decreases self.labels@.len() - i,
        {
            assert(self@.labels[i as int] == self.labels@[i as int]@);
            assert(model::on_sheet(self@.labels[i as int].at));
            let e = label_up(ids, "l", i, self.labels[i].to_json());
            assert(e@ == want[i as int]);
            out.push(e);
            i += 1;
        }
        assert(json::values_v(out@) =~= want);
        list_json(out)
    }

    fn nc_items(&self, ids: bool) -> (r: Json)
        requires
            self@.ok(),
        ensures
            r@ == JsonV::Arr(
                nc_list(self@, ids),
            ),
            json::ok(r@),
    {
        let ghost want = nc_list(self@, ids);
        let mut out: Vec<Json> = Vec::new();
        let mut i: usize = 0;
        while i < self.nc.len()
            invariant
                i <= self.nc@.len(),
                self@.ok(),
                want == nc_list(self@, ids),
                out@.len() == i,
                forall|k: int|
                    0 <= k < i ==> (#[trigger] out@[k])@ == want[k] && json::ok(out@[k]@),
            decreases self.nc@.len() - i,
        {
            assert(model::on_sheet(self@.nc[i as int]));
            let e = box_up(ids, "n", i, "at", pt_gu(self.nc[i]));
            assert(e@ == want[i as int]);
            out.push(e);
            i += 1;
        }
        assert(json::values_v(out@) =~= want);
        list_json(out)
    }

    fn text_list(&self, ids: bool) -> (r: Json)
        requires
            self@.ok(),
        ensures
            r@ == JsonV::Arr(
                note_list(self@, ids),
            ),
            json::ok(r@),
    {
        let ghost want = note_list(self@, ids);
        let mut out: Vec<Json> = Vec::new();
        let mut i: usize = 0;
        while i < self.texts.len()
            invariant
                i <= self.texts@.len(),
                self@.ok(),
                want == note_list(self@, ids),
                out@.len() == i,
                forall|k: int|
                    0 <= k < i ==> (#[trigger] out@[k])@ == want[k] && json::ok(out@[k]@),
            decreases self.texts@.len() - i,
        {
            assert(self@.texts[i as int] == self.texts@[i as int]@);
            assert(model::text_ok(self@.texts[i as int]));
            let e = label_up(ids, "t", i, self.texts[i].to_json());
            assert(e@ == want[i as int]);
            out.push(e);
            i += 1;
        }
        assert(json::values_v(out@) =~= want);
        list_json(out)
    }

    fn rect_items(&self, ids: bool) -> (r: Json)
        requires
            self@.ok(),
        ensures
            r@ == JsonV::Arr(
                rect_list(self@, ids),
            ),
            json::ok(r@),
    {
        let ghost want = rect_list(self@, ids);
        let mut out: Vec<Json> = Vec::new();
        let mut i: usize = 0;
        while i < self.rects.len()
            invariant
                i <= self.rects@.len(),
                self@.ok(),
                want == rect_list(self@, ids),
                out@.len() == i,
                forall|k: int|
                    0 <= k < i ==> (#[trigger] out@[k])@ == want[k] && json::ok(out@[k]@),
            decreases self.rects@.len() - i,
        {
            assert(self@.rects[i as int] == self.rects@[i as int]@);
            assert(model::on_sheet(self@.rects[i as int].start));
            let e = label_up(ids, "r", i, self.rects[i].to_json());
            assert(e@ == want[i as int]);
            out.push(e);
            i += 1;
        }
        assert(json::values_v(out@) =~= want);
        list_json(out)
    }

    fn part_items(&self) -> (r: Json)
        requires
            self@.ok(),
        ensures
            r@ == JsonV::Arr(part_list(self@)),
            json::ok(r@),
    {
        let mut out: Vec<Json> = Vec::new();
        let mut i: usize = 0;
        while i < self.parts.len()
            invariant
                i <= self.parts@.len(),
                self@.ok(),
                out@.len() == i,
                forall|k: int|
                    0 <= k < i ==> (#[trigger] out@[k])@ == part_json(self@.parts[k]) && json::ok(
                        out@[k]@,
                    ),
            decreases self.parts@.len() - i,
        {
            assert(self@.parts[i as int] == self.parts@[i as int]@);
            assert(model::part_ok(self@.parts[i as int]));
            out.push(self.parts[i].to_json());
            i += 1;
        }
        assert(json::values_v(out@) =~= part_list(self@));
        list_json(out)
    }

    fn kept_tags(&self) -> (r: Vec<String>)
        ensures
            text::views(r@) == names::distinct(
                node_tags(self@.extra_nodes),
                self@.extra_nodes.len() as int,
            ),
    {
        let mut tags: Vec<String> = Vec::new();
        let mut i: usize = 0;
        while i < self.extra_nodes.len()
            invariant
                i <= self.extra_nodes@.len(),
                tags@.len() == i,
                forall|k: int|
                    0 <= k < i ==> (#[trigger] tags@[k])@ == sexp::tag_of(self@.extra_nodes[k]),
            decreases self.extra_nodes@.len() - i,
        {
            assert(self@.extra_nodes[i as int] == self.extra_nodes@[i as int]@);
            tags.push(self.extra_nodes[i].tag().to_owned());
            i += 1;
        }
        assert(text::views(tags@) =~= node_tags(self@.extra_nodes));
        name_set(&tags)
    }

    fn head_json(&self) -> (f: Fields)
        ensures
            f@ == design_head(self@),
            json::fields_ok(f@),
    {
        let f = Fields::new().text("title", self.title.as_str()).text("paper", self.paper.as_str());
        assert(f@ =~= seq![
            ("title"@, JsonV::Str(self.title@)),
            ("paper"@, JsonV::Str(self.paper@)),
        ]);
        let f = f.text_unless(is_empty(self.rev.as_str()), "rev", self.rev.as_str());
        let f = f.text_unless(is_empty(self.company.as_str()), "company", self.company.as_str());
        let f = f.text_unless(is_empty(self.date.as_str()), "date", self.date.as_str());
        let ghost f0 = f@;
        let f = if self.comments.len() > 0 {
            f.add("comments", texts_json(&self.comments))
        } else {
            f
        };
        assert(f@ =~= f0 + given(
            self@.comments.len() > 0,
            "comments"@,
            JsonV::Arr(text_items(self@.comments)),
        ));
        f
    }

    /// The JSON form; with identifiers, wires, labels, power symbols, markers, texts and rectangles
    /// are tagged so that an edit can address them.
    pub fn to_json(&self, with_ids: bool) -> (r: Json)
        requires
            self@.ok(),
        ensures
            r@ == design_json(self@, with_ids),
            json::ok(r@),
    {
        let f = self.head_json();
        let ghost head = f@;
        let parts = self.part_items();
        let power = self.power_items(with_ids);
        let wires = self.wire_items(with_ids);
        let labels = self.label_items(with_ids);
        let nc = self.nc_items(with_ids);
        let notes = self.text_list(with_ids);
        let rects = self.rect_items(with_ids);
        let ghost mid = seq![
            ("parts"@, parts@),
            ("power"@, power@),
            ("wires"@, wires@),
            ("labels"@, labels@),
            ("nc"@, nc@),
            ("texts"@, notes@),
            ("rects"@, rects@),
        ];
        let f = f.add("parts", parts).add("power", power).add("wires", wires).add(
            "labels",
            labels,
        ).add("nc", nc).add("texts", notes).add("rects", rects);
        assert(f@ =~= head + mid);
        let f = if self.extra_nodes.len() > 0 {
            f.add("_preserved", texts_json(&self.kept_tags()))
        } else {
            f
        };
        assert(f@ =~= head + mid + design_tail(self@));
        f.done()
    }
}

/// The first part from `i` on with a reference.
pub open spec fn first_part(v: Seq<PartV>, id: Seq<char>, i: int) -> int
    decreases v.len() - i,
{
    if i < 0 || i >= v.len() {
        v.len() as int
    } else if v[i].id == id {
        i
    } else {
        first_part(v, id, i + 1)
    }
}

// ---------------------------------------------------------------- reading
/// The list behind a key; anything else is an empty one.
pub open spec fn list_at(d: Seq<(Seq<char>, JsonV)>, k: Seq<char>) -> Seq<JsonV> {
    match order_map::look(d, k) {
        Some(v) => json::items_of(v),
        None => Seq::empty(),
    }
}

/// The list behind a key, copied.
pub(crate) fn list_of(d: &Vec<(String, Json)>, k: &str) -> (r: Vec<Json>)
    ensures
        json::values_v(r@) == list_at(json::entries_v(d@), k@),
        json::fields_ok(json::entries_v(d@)) ==> json::all_ok(json::values_v(r@)),
{
    let r = match entry(d, k) {
        Some(v) => match v.as_array() {
            Some(a) => dup_values(a),
            None => Vec::new(),
        },
        None => Vec::new(),
    };
    assert(json::values_v(r@) =~= list_at(json::entries_v(d@), k@));
    r
}

/// What an object holds under a key, and anything else as it is.
pub open spec fn unboxed(v: JsonV, k: Seq<char>) -> JsonV {
    if v is Obj {
        match json::field(v, k) {
            Some(x) => x,
            None => JsonV::Null,
        }
    } else {
        v
    }
}

pub open spec fn unboxed_all(v: Seq<JsonV>, k: Seq<char>) -> JsonV {
    JsonV::Arr(Seq::new(v.len(), |i: int| unboxed(v[i], k)))
}

/// An object without its identifier; anything else becomes an empty object.
pub open spec fn bare(v: JsonV, keep: bool) -> JsonV {
    JsonV::Obj(
        if keep {
            json::entries_of(v)
        } else {
            json::taken_out(json::entries_of(v), "id"@)
        },
    )
}

pub open spec fn bare_all(v: Seq<JsonV>, keep: bool) -> JsonV {
    JsonV::Arr(Seq::new(v.len(), |i: int| bare(v[i], keep)))
}

/// Entries with the list of a key replaced by its untagged form.
pub open spec fn untagged(d: Seq<(Seq<char>, JsonV)>, k: Seq<char>) -> Seq<(Seq<char>, JsonV)> {
    order_map::put(d, k, bare_all(list_at(d, k), k == "parts"@))
}

/// The plain form: identifiers of wires, markers, labels, power symbols, texts and rectangles are
/// taken away, and every list is there.
pub open spec fn normalized(d: JsonV) -> Seq<(Seq<char>, JsonV)> {
    let d0 = json::entries_of(d);
    let d1 = order_map::put(d0, "wires"@, unboxed_all(list_at(d0, "wires"@), "pts"@));
    let d2 = order_map::put(d1, "nc"@, unboxed_all(list_at(d1, "nc"@), "at"@));
    untagged(untagged(untagged(untagged(untagged(d2, "labels"@), "power"@), "texts"@), "rects"@), "parts"@)
}

fn unbox(v: &Json, k: &str) -> (r: Json)
    requires
        json::ok(v@),
    ensures
        r@ == unboxed(v@, k@),
        json::ok(r@),
{
    match v.as_object() {
        Some(o) => match entry(o, k) {
            Some(x) => x.dup(),
            None => Json::Null,
        },
        None => v.dup(),
    }
}

fn put_unboxed(d: &mut Vec<(String, Json)>, key: &str, k: &str)
    requires
        json::fields_ok(json::entries_v(old(d)@)),
    ensures
        json::entries_v(final(d)@) == order_map::put(
            json::entries_v(old(d)@),
            key@,
            unboxed_all(list_at(json::entries_v(old(d)@), key@), k@),
        ),
        json::fields_ok(json::entries_v(final(d)@)),
{
    let v = list_of(d, key);
    let ghost vv = json::values_v(v@);
    let ghost want = Seq::new(vv.len(), |i: int| unboxed(vv[i], k@));
    let mut out: Vec<Json> = Vec::new();
    let mut i: usize = 0;
    while i < v.len()
        invariant
            i <= v@.len(),
            vv == json::values_v(v@),
            json::all_ok(vv),
            want == Seq::new(vv.len(), |i: int| unboxed(vv[i], k@)),
            out@.len() == i,
            forall|j: int| 0 <= j < i ==> (#[trigger] out@[j])@ == want[j] && json::ok(out@[j]@),
        decreases v@.len() - i,
    {
        assert(vv[i as int] == v@[i as int]@);
        assert(json::ok(vv[i as int]));
        let e = unbox(&v[i], k);
        assert(e@ == want[i as int]);
        out.push(e);
        i += 1;
    }
    assert(json::values_v(out@) =~= want);
    let x = list_json(out);
    proof {
        json::lemma_put_ok(json::entries_v(d@), key@, x@);
    }
    put_entry(d, key, x);
}

proof fn lemma_taken_ok(m: Seq<(Seq<char>, JsonV)>, k: Seq<char>)
    requires
        json::fields_ok(m),
    ensures
        json::fields_ok(json::taken_out(m, k)),
{
    order_map::lemma_seek(m, k, 0);
    let t = json::taken_out(m, k);
    assert forall|i: int| 0 <= i < t.len() implies json::ok((#[trigger] t[i]).1) by {
        let j = order_map::seek(m, k, 0);
        if j < m.len() {
            assert(t[i] == m[i] || t[i] == m[m.len() - 1]);
        }
    }
}

fn strip_id(v: &Json, keep: bool) -> (r: Json)
    requires
        json::ok(v@),
    ensures
        r@ == bare(v@, keep),
        json::ok(r@),
{
    let mut o: Vec<(String, Json)> = match v.as_object() {
        Some(o) => dup_entries(o),
        None => Vec::new(),
    };
    assert(json::entries_v(o@) =~= json::entries_of(v@));
    assert(json::fields_ok(json::entries_v(o@)));
    if !keep {
        proof {
            lemma_taken_ok(json::entries_v(o@), "id"@);
        }
        take_out(&mut o, "id");
    }
    Fields { v: o }.done()
}

fn put_untagged(d: &mut Vec<(String, Json)>, key: &str)
    requires
        json::fields_ok(json::entries_v(old(d)@)),
    ensures
        json::entries_v(final(d)@) == untagged(json::entries_v(old(d)@), key@),
        json::fields_ok(json::entries_v(final(d)@)),
{
    let keep = same(key, "parts");
    let v = list_of(d, key);
    let ghost vv = json::values_v(v@);
    let ghost want = Seq::new(vv.len(), |i: int| bare(vv[i], keep));
    let mut out: Vec<Json> = Vec::new();
    let mut i: usize = 0;
    while i < v.len()
        invariant
            i <= v@.len(),
            vv == json::values_v(v@),
            json::all_ok(vv),
            want == Seq::new(vv.len(), |i: int| bare(vv[i], keep)),
            out@.len() == i,
            forall|j: int| 0 <= j < i ==> (#[trigger] out@[j])@ == want[j] && json::ok(out@[j]@),
        decreases v@.len() - i,
    {
        assert(vv[i as int] == v@[i as int]@);
        assert(json::ok(vv[i as int]));
        let e = strip_id(&v[i], keep);
        assert(e@ == want[i as int]);
        out.push(e);
        i += 1;
    }
    assert(json::values_v(out@) =~= want);
    let x = list_json(out);
    proof {
        json::lemma_put_ok(json::entries_v(d@), key@, x@);
    }
    put_entry(d, key, x);
}

pub(crate) fn object_of(d: &Json) -> (r: Vec<(String, Json)>)
    requires
        json::ok(d@),
    ensures
        json::entries_v(r@) == json::entries_of(d@),
        json::fields_ok(json::entries_v(r@)),
{
    let r: Vec<(String, Json)> = match d.as_object() {
        Some(o) => dup_entries(o),
        None => Vec::new(),
    };
    assert(json::entries_v(r@) =~= json::entries_of(d@));
    r
}

pub(crate) fn normal_entries(d: &Json) -> (r: Vec<(String, Json)>)
    requires
        json::ok(d@),
    ensures
        json::entries_v(r@) == normalized(d@),
        json::fields_ok(json::entries_v(r@)),
{
    let mut o = object_of(d);
    put_unboxed(&mut o, "wires", "pts");
    put_unboxed(&mut o, "nc", "at");
    put_untagged(&mut o, "labels");
    put_untagged(&mut o, "power");
    put_untagged(&mut o, "texts");
    put_untagged(&mut o, "rects");
    put_untagged(&mut o, "parts");
    o
}

/// Accepts the tagged forms and gives the plain one.
pub fn normalize_json(d: &Json) -> (r: Json)
    requires
        json::ok(d@),
    ensures
        r@ == JsonV::Obj(normalized(d@)),
        json::ok(r@),
{
    Fields { v: normal_entries(d) }.done()
}

/// The text of a value: a string as it is, nothing for null, other values as JSON.
pub open spec fn plain_text(o: Seq<(Seq<char>, JsonV)>, k: Seq<char>) -> Seq<char> {
    match order_map::look(o, k) {
        Some(JsonV::Str(s)) => s,
        Some(JsonV::Null) => Seq::empty(),
        Some(v) => json::text_of(v),
        None => Seq::empty(),
    }
}

pub(crate) fn str_of(o: &Vec<(String, Json)>, k: &str) -> (r: String)
    requires
        json::fields_ok(json::entries_v(o@)),
    ensures
        r@ == plain_text(json::entries_v(o@), k@),
{
    match entry(o, k) {
        Some(v) => match v {
            Json::Str(s) => s.clone(),
            Json::Null => {
                let r = String::new();
                assert(r@ =~= Seq::<char>::empty());
                r
            },
            _ => v.to_text(),
        },
        None => {
            let r = String::new();
            assert(r@ =~= Seq::<char>::empty());
            r
        },
    }
}

pub open spec fn text_else(
    o: Seq<(Seq<char>, JsonV)>,
    k: Seq<char>,
    other: Seq<char>,
) -> Seq<char> {
    match order_map::look(o, k) {
        Some(JsonV::Str(s)) => s,
        _ => other,
    }
}

pub(crate) fn opt_str(o: &Vec<(String, Json)>, k: &str, default: &str) -> (r: String)
    ensures
        r@ == text_else(json::entries_v(o@), k@, default@),
{
    match entry(o, k) {
        Some(v) => match v {
            Json::Str(s) => s.clone(),
            _ => default.to_owned(),
        },
        None => default.to_owned(),
    }
}

/// The number behind a key in millionths, or another.
pub open spec fn num_else(o: Seq<(Seq<char>, JsonV)>, k: Seq<char>, other: int) -> int {
    match order_map::look(o, k) {
        Some(v) => match json::num_in(v) {
            Some(m) => m,
            None => other,
        },
        None => other,
    }
}

pub(crate) fn number_or(o: &Vec<(String, Json)>, k: &str, other: i64) -> (r: i64)
    requires
        json::fields_ok(json::entries_v(o@)),
        -NUM_MAX <= other <= NUM_MAX,
    ensures
        r == num_else(json::entries_v(o@), k@, other as int),
        -NUM_MAX <= r <= NUM_MAX,
{
    match entry(o, k) {
        Some(v) => match v.as_num() {
            Some(m) => m,
            None => other,
        },
        None => other,
    }
}

/// The number behind a key without its fraction, as far as it fits.
pub open spec fn whole_else(o: Seq<(Seq<char>, JsonV)>, k: Seq<char>, other: int) -> int {
    extract::clamp_i32(extract::whole(num_else(o, k, other * 1_000_000)))
}

pub(crate) fn whole_or(o: &Vec<(String, Json)>, k: &str, other: i32) -> (r: i32)
    requires
        json::fields_ok(json::entries_v(o@)),
        -1000 <= other <= 1000,
    ensures
        r == whole_else(json::entries_v(o@), k@, other as int),
{
    to_i32(to_whole(number_or(o, k, other as i64 * 1_000_000)))
}

pub open spec fn is_true(o: Seq<(Seq<char>, JsonV)>, k: Seq<char>) -> bool {
    order_map::look(o, k) == Some(JsonV::Bool(true))
}

fn flag_of(o: &Vec<(String, Json)>, k: &str) -> (r: bool)
    ensures
        r == is_true(json::entries_v(o@), k@),
{
    match entry(o, k) {
        Some(v) => match v.as_bool() {
            Some(b) => b,
            None => false,
        },
        None => false,
    }
}

pub open spec fn point_at(o: Seq<(Seq<char>, JsonV)>, k: Seq<char>) -> Pt {
    match order_map::look(o, k) {
        Some(v) => point_of(v),
        None => point_of(JsonV::Null),
    }
}

pub(crate) fn pt_of(o: &Vec<(String, Json)>, k: &str) -> (r: Pt)
    requires
        json::fields_ok(json::entries_v(o@)),
    ensures
        r == point_at(json::entries_v(o@), k@),
        model::on_sheet(r),
{
    match entry(o, k) {
        Some(v) => pt_mm(v),
        None => pt_mm(&Json::Null),
    }
}

pub open spec fn base_parts(base: Option<DesignV>) -> Seq<PartV> {
    match base {
        Some(b) => b.parts,
        None => Seq::empty(),
    }
}

/// A part as its object says.
pub open spec fn stated_part(o: Seq<(Seq<char>, JsonV)>) -> PartV {
    PartV {
        id: plain_text(o, "id"@),
        lib: plain_text(o, "lib"@),
        at: point_at(o, "at"@),
        rot: whole_else(o, "rot"@, 0),
        mirror: plain_text(o, "mirror"@),
        value: plain_text(o, "value"@),
        unit: whole_else(o, "unit"@, 1),
        footprint: plain_text(o, "footprint"@),
        dnp: is_true(o, "dnp"@),
        fields: match order_map::look(o, "fields"@) {
            Some(v) => json::entries_of(v),
            None => Seq::empty(),
        },
        ref_at: anchor_of(order_map::look(o, "ref_at"@)),
        val_at: anchor_of(order_map::look(o, "val_at"@)),
        hide_value: is_true(o, "hide_value"@),
        uuid: Seq::empty(),
        lib_name: plain_text(o, "lib_name"@),
    }
}

/// A part takes over from the one it replaces: its identifier, and where it did not move and says
/// nothing of its texts, where they stand.
pub open spec fn inherited_part(p: PartV, old: PartV) -> PartV {
    if p.ref_at is None && old.at == p.at && old.rot == p.rot && old.mirror == p.mirror {
        PartV {
            uuid: old.uuid,
            ref_at: old.ref_at,
            val_at: old.val_at,
            hide_value: old.hide_value,
            ..p
        }
    } else {
        PartV { uuid: old.uuid, ..p }
    }
}

/// The first part from `i` on with a reference, a symbol and a unit, or the number of parts.
pub open spec fn same_part(v: Seq<PartV>, p: PartV, i: int) -> int
    decreases v.len() - i,
{
    if i < 0 || i >= v.len() {
        v.len() as int
    } else if v[i].id == p.id && v[i].lib == p.lib && v[i].unit == p.unit {
        i
    } else {
        same_part(v, p, i + 1)
    }
}

fn find_same<'a>(d: &'a Design, p: &Part) -> (r: Option<&'a Part>)
    ensures
        match r {
            Some(q) => 0 <= same_part(d@.parts, p@, 0) < d@.parts.len() && q@
                == d@.parts[same_part(d@.parts, p@, 0)],
            None => same_part(d@.parts, p@, 0) == d@.parts.len(),
        },
{
    let ghost pv = d@.parts;
    let mut i: usize = 0;
    while i < d.parts.len()
        invariant
            i <= d.parts@.len(),
            pv == d@.parts,
            same_part(pv, p@, 0) == same_part(pv, p@, i as int),
        decreases d.parts@.len() - i,
    {
        assert(pv[i as int] == d.parts@[i as int]@);
        let q = &d.parts[i];
        if same(q.id.as_str(), p.id.as_str()) && same(q.lib.as_str(), p.lib.as_str()) && q.unit
            == p.unit {
            return Some(q);
        }
        i += 1;
    }
    None
}

pub open spec fn part_from(v: JsonV, base: Option<DesignV>) -> PartV {
    let p = stated_part(json::entries_of(v));
    let b = base_parts(base);
    let k = same_part(b, p, 0);
    if k < b.len() {
        inherited_part(p, b[k])
    } else {
        p
    }
}

fn state_part(o: &Vec<(String, Json)>) -> (r: Part)
    requires
        json::fields_ok(json::entries_v(o@)),
    ensures
        r@ == stated_part(json::entries_v(o@)),
        model::part_ok(r@),
{
    let fields: Vec<(String, Json)> = match entry(o, "fields") {
        Some(v) => object_of(v),
        None => Vec::new(),
    };
    let r = Part {
        id: str_of(o, "id"),
        lib: str_of(o, "lib"),
        at: pt_of(o, "at"),
        rot: whole_or(o, "rot", 0),
        mirror: str_of(o, "mirror"),
        value: str_of(o, "value"),
        unit: whole_or(o, "unit", 1),
        footprint: str_of(o, "footprint"),
        dnp: flag_of(o, "dnp"),
        fields,
        ref_at: at_mm(entry(o, "ref_at")),
        val_at: at_mm(entry(o, "val_at")),
        hide_value: flag_of(o, "hide_value"),
        uuid: String::new(),
        lib_name: str_of(o, "lib_name"),
    };
    assert(r@ =~= stated_part(json::entries_v(o@)));
    r
}

pub(crate) fn dup_anchor(a: &Option<Anchor>) -> (r: Option<Anchor>)
    ensures
        model::anchor_v(r) == model::anchor_v(*a),
{
    match a {
        Some(x) => Some(Anchor { at: x.at, rest: dup_values(&x.rest) }),
        None => None,
    }
}

fn read_part(v: &Json, base: Option<&Design>) -> (r: Part)
    requires
        json::ok(v@),
        base is Some ==> base->0@.ok(),
    ensures
        r@ == part_from(v@, design_v(base)),
        model::part_ok(r@),
{
    let o = object_of(v);
    let mut p = state_part(&o);
    let ghost p0 = p@;
    match base {
        Some(b) => match find_same(b, &p) {
            Some(old) => {
                assert(model::part_ok(old@));
                p.uuid = old.uuid.clone();
                if p.ref_at.is_none() && old.at == p.at && old.rot == p.rot && same(
                    old.mirror.as_str(),
                    p.mirror.as_str(),
                ) {
                    p.ref_at = dup_anchor(&old.ref_at);
                    p.val_at = dup_anchor(&old.val_at);
                    p.hide_value = old.hide_value;
                }
                assert(p@ =~= inherited_part(p0, old@));
            },
            None => {},
        },
        None => {},
    }
    p
}

pub open spec fn design_v(b: Option<&Design>) -> Option<DesignV> {
    match b {
        Some(d) => Some(d@),
        None => None,
    }
}

/// A power symbol as its object says.
pub open spec fn stated_power(o: Seq<(Seq<char>, JsonV)>) -> PowerV {
    let net = plain_text(o, "net"@);
    PowerV {
        net,
        at: point_at(o, "at"@),
        rot: whole_else(o, "rot"@, 0),
        lib: if plain_text(o, "lib"@).len() == 0 {
            "power:"@ + net
        } else {
            plain_text(o, "lib"@)
        },
        reference: Seq::empty(),
        uuid: Seq::empty(),
        value: Seq::empty(),
        val_at: None,
        hide_value: false,
        mirror: plain_text(o, "mirror"@),
    }
}

/// The first power symbol from `i` on with a net at a point.
pub open spec fn first_power(v: Seq<PowerV>, net: Seq<char>, at: Pt, i: int) -> int
    decreases v.len() - i,
{
    if i < 0 || i >= v.len() {
        v.len() as int
    } else if v[i].net == net && v[i].at == at {
        i
    } else {
        first_power(v, net, at, i + 1)
    }
}

pub open spec fn power_from(v: JsonV, base: Option<DesignV>) -> PowerV {
    let p = stated_power(json::entries_of(v));
    let b = match base {
        Some(x) => x.power,
        None => Seq::empty(),
    };
    let k = first_power(b, p.net, p.at, 0);
    if k < b.len() && b[k].rot == p.rot {
        PowerV { uuid: b[k].uuid, reference: b[k].reference, val_at: b[k].val_at, ..p }
    } else {
        p
    }
}

fn find_power(b: &Design, net: &str, at: Pt) -> (r: usize)
    ensures
        r == first_power(b@.power, net@, at, 0),
{
    let ghost pv = b@.power;
    let mut i: usize = 0;
    while i < b.power.len()
        invariant
            i <= b.power@.len(),
            pv == b@.power,
            first_power(pv, net@, at, 0) == first_power(pv, net@, at, i as int),
        decreases b.power@.len() - i,
    {
        assert(pv[i as int] == b.power@[i as int]@);
        if same(b.power[i].net.as_str(), net) && b.power[i].at == at {
            return i;
        }
        i += 1;
    }
    i
}

fn read_power(v: &Json, base: Option<&Design>) -> (r: Power)
    requires
        json::ok(v@),
        base is Some ==> base->0@.ok(),
    ensures
        r@ == power_from(v@, design_v(base)),
        model::power_ok(r@),
{
    let o = object_of(v);
    let net = str_of(&o, "net");
    let stated = str_of(&o, "lib");
    let lib = if is_empty(stated.as_str()) {
        Line::of("power:").add(net.as_str()).done()
    } else {
        stated
    };
    let mut p = Power {
        net,
        at: pt_of(&o, "at"),
        rot: whole_or(&o, "rot", 0),
        lib,
        reference: String::new(),
        uuid: String::new(),
        value: String::new(),
        val_at: None,
        hide_value: false,
        mirror: str_of(&o, "mirror"),
    };
    assert(p@ =~= stated_power(json::entries_of(v@)));
    let ghost p0 = p@;
    match base {
        Some(b) => {
            let k: usize = find_power(b, p.net.as_str(), p.at);
            if k < b.power.len() && b.power[k].rot == p.rot {
                assert(b@.power[k as int] == b.power@[k as int]@);
                assert(model::power_ok(b@.power[k as int]));
                p.uuid = b.power[k].uuid.clone();
                p.reference = b.power[k].reference.clone();
                p.val_at = dup_anchor(&b.power[k].val_at);
                assert(p@ =~= PowerV {
                    uuid: b@.power[k as int].uuid,
                    reference: b@.power[k as int].reference,
                    val_at: b@.power[k as int].val_at,
                    ..p0
                });
            }
        },
        None => {},
    }
    p
}

/// The wires among a list: those with two points or more.
pub open spec fn wires_from(v: Seq<JsonV>, n: int) -> Seq<Seq<Pt>>
    decreases n,
{
    if n <= 0 {
        Seq::empty()
    } else if v[n - 1] is Arr && v[n - 1]->Arr_0.len() >= 2 {
        wires_from(v, n - 1).push(points_from(v[n - 1]->Arr_0))
    } else {
        wires_from(v, n - 1)
    }
}

pub open spec fn points_from(v: Seq<JsonV>) -> Seq<Pt> {
    Seq::new(v.len(), |i: int| point_of(v[i]))
}

fn read_points(v: &Vec<Json>) -> (r: Vec<Pt>)
    requires
        json::all_ok(json::values_v(v@)),
    ensures
        r@ == points_from(json::values_v(v@)),
        model::path_ok(r@),
{
    let ghost vv = json::values_v(v@);
    let mut r: Vec<Pt> = Vec::new();
    let mut i: usize = 0;
    while i < v.len()
        invariant
            i <= v@.len(),
            vv == json::values_v(v@),
            json::all_ok(vv),
            r@.len() == i,
            forall|k: int|
                0 <= k < i ==> #[trigger] r@[k] == point_of(vv[k]) && model::on_sheet(r@[k]),
        decreases v@.len() - i,
    {
        assert(vv[i as int] == v@[i as int]@);
        assert(json::ok(vv[i as int]));
        r.push(pt_mm(&v[i]));
        i += 1;
    }
    assert(r@ =~= points_from(vv));
    r
}

fn read_wires(v: &Vec<Json>) -> (r: Vec<Vec<Pt>>)
    requires
        json::all_ok(json::values_v(v@)),
    ensures
        model::wires_v(r@) == wires_from(json::values_v(v@), v@.len() as int),
        forall|i: int| 0 <= i < r@.len() ==> model::path_ok((#[trigger] r@[i])@),
{
    let ghost vv = json::values_v(v@);
    let mut r: Vec<Vec<Pt>> = Vec::new();
    let mut i: usize = 0;
    assert(model::wires_v(r@) =~= wires_from(vv, 0));
    while i < v.len()
        invariant
            i <= v@.len(),
            vv == json::values_v(v@),
            json::all_ok(vv),
            model::wires_v(r@) == wires_from(vv, i as int),
            forall|i: int| 0 <= i < r@.len() ==> model::path_ok((#[trigger] r@[i])@),
        decreases v@.len() - i,
    {
        assert(vv[i as int] == v@[i as int]@);
        assert(json::ok(vv[i as int]));
        let ghost r0 = r@;
        match v[i].as_array() {
            Some(a) => {
                if a.len() >= 2 {
                    let w = read_points(a);
                    let ghost wv = w@;
                    r.push(w);
                    assert(model::wires_v(r@) =~= model::wires_v(r0).push(wv));
                }
            },
            None => {},
        }
        i += 1;
    }
    r
}

pub open spec fn label_from(v: JsonV) -> LabelV {
    let o = json::entries_of(v);
    LabelV {
        text: plain_text(o, "text"@),
        at: point_at(o, "at"@),
        rot: whole_else(o, "rot"@, 0),
        kind: text_else(o, "type"@, "local"@),
        shape: text_else(o, "shape"@, "input"@),
        uuid: Seq::empty(),
        justify: Seq::empty(),
    }
}

fn read_label(v: &Json) -> (r: Label)
    requires
        json::ok(v@),
    ensures
        r@ == label_from(v@),
        model::on_sheet(r.at),
{
    let o = object_of(v);
    let r = Label {
        text: str_of(&o, "text"),
        at: pt_of(&o, "at"),
        rot: whole_or(&o, "rot", 0),
        kind: opt_str(&o, "type", "local"),
        shape: opt_str(&o, "shape", "input"),
        uuid: String::new(),
        justify: String::new(),
    };
    assert(r@ =~= label_from(v@));
    r
}

pub open spec fn text_from(v: JsonV) -> TextV {
    let o = json::entries_of(v);
    TextV {
        text: plain_text(o, "text"@),
        at: point_at(o, "at"@),
        rot: whole_else(o, "rot"@, 0),
        size: extract::units_of(num_else(o, "size"@, 1_270_000)),
        bold: is_true(o, "bold"@),
        justify: text_else(o, "justify"@, "left bottom"@),
        uuid: Seq::empty(),
    }
}

fn read_text(v: &Json) -> (r: Text)
    requires
        json::ok(v@),
    ensures
        r@ == text_from(v@),
        model::text_ok(r@),
{
    let o = object_of(v);
    let r = Text {
        text: str_of(&o, "text"),
        at: pt_of(&o, "at"),
        rot: whole_or(&o, "rot", 0),
        size: to_units(number_or(&o, "size", 1_270_000)),
        bold: flag_of(&o, "bold"),
        justify: opt_str(&o, "justify", "left bottom"),
        uuid: String::new(),
    };
    assert(r@ =~= text_from(v@));
    r
}

pub open spec fn rect_from(v: JsonV) -> RectV {
    let o = json::entries_of(v);
    RectV { start: point_at(o, "start"@), end: point_at(o, "end"@), uuid: Seq::empty() }
}

fn read_rect(v: &Json) -> (r: Rect)
    requires
        json::ok(v@),
    ensures
        r@ == rect_from(v@),
        model::on_sheet(r.start) && model::on_sheet(r.end),
{
    let o = object_of(v);
    let r = Rect { start: pt_of(&o, "start"), end: pt_of(&o, "end"), uuid: String::new() };
    assert(r@ =~= rect_from(v@));
    r
}

pub open spec fn comments_from(v: Seq<JsonV>) -> Seq<Seq<char>> {
    Seq::new(
        v.len(),
        |i: int|
            match v[i] {
                JsonV::Str(s) => s,
                _ => Seq::empty(),
            },
    )
}

/// A design without what stands on it.
pub open spec fn design_frame(o: Seq<(Seq<char>, JsonV)>, base: Option<DesignV>) -> DesignV {
    let b = match base {
        Some(x) => x,
        None => DesignV::empty(),
    };
    DesignV {
        title: text_else(o, "title"@, b.title),
        paper: text_else(o, "paper"@, b.paper),
        rev: text_else(o, "rev"@, b.rev),
        company: text_else(o, "company"@, b.company),
        date: text_else(o, "date"@, b.date),
        comments: match order_map::look(o, "comments"@) {
            Some(JsonV::Arr(v)) => comments_from(v),
            _ => b.comments,
        },
        lib_symbols: b.lib_symbols,
        extra_nodes: b.extra_nodes,
        uuid: b.uuid,
        sheet_path_uuid: b.sheet_path_uuid,
        project: b.project,
        ..DesignV::empty()
    }
}

/// The design that a JSON form describes. `base` supplies what is preserved: symbols, identifiers
/// and nodes that the form does not show.
pub open spec fn design_from(j: JsonV, base: Option<DesignV>) -> DesignV {
    let o = normalized(j);
    let parts = list_at(o, "parts"@);
    let power = list_at(o, "power"@);
    let wires = list_at(o, "wires"@);
    let labels = list_at(o, "labels"@);
    let texts = list_at(o, "texts"@);
    let rects = list_at(o, "rects"@);
    DesignV {
        parts: Seq::new(parts.len(), |i: int| part_from(parts[i], base)),
        power: Seq::new(power.len(), |i: int| power_from(power[i], base)),
        wires: wires_from(wires, wires.len() as int),
        labels: Seq::new(labels.len(), |i: int| label_from(labels[i])),
        nc: points_from(list_at(o, "nc"@)),
        texts: Seq::new(texts.len(), |i: int| text_from(texts[i])),
        rects: Seq::new(rects.len(), |i: int| rect_from(rects[i])),
        ..design_frame(o, base)
    }
}

fn read_comments(o: &Vec<(String, Json)>, base: &Vec<String>) -> (r: Vec<String>)
    ensures
        text::views(r@) == (match order_map::look(json::entries_v(o@), "comments"@) {
            Some(JsonV::Arr(v)) => comments_from(v),
            _ => text::views(base@),
        }),
{
    let list = match entry(o, "comments") {
        Some(v) => v.as_array(),
        None => None,
    };
    match list {
        Some(a) => {
            let mut r: Vec<String> = Vec::new();
            let ghost vv = json::values_v(a@);
            let ghost want = comments_from(vv);
            let mut i: usize = 0;
            while i < a.len()
                invariant
                    i <= a@.len(),
                    vv == json::values_v(a@),
                    want == comments_from(vv),
                    r@.len() == i,
                    forall|k: int| 0 <= k < i ==> (#[trigger] r@[k])@ == want[k],
                decreases a@.len() - i,
            {
                assert(vv[i as int] == a@[i as int]@);
                let t = match a[i].as_str() {
                    Some(s) => s.clone(),
                    None => String::new(),
                };
                assert(t@ =~= want[i as int]);
                r.push(t);
                i += 1;
            }
            assert(text::views(r@) =~= want);
            r
        },
        None => {
            let mut r: Vec<String> = Vec::new();
            let mut i: usize = 0;
            while i < base.len()
                invariant
                    i <= base@.len(),
                    r@.len() == i,
                    forall|k: int| 0 <= k < i ==> (#[trigger] r@[k])@ == base@[k]@,
                decreases base@.len() - i,
            {
                r.push(base[i].clone());
                i += 1;
            }
            assert(text::views(r@) =~= text::views(base@));
            r
        },
    }
}

fn frame_from(o: &Vec<(String, Json)>, b: &Design, Ghost(base): Ghost<Option<DesignV>>) -> (d: Design)
    requires
        b@.ok(),
        b@ == (match base {
            Some(x) => x,
            None => DesignV::empty(),
        }),
    ensures
        d@ == design_frame(json::entries_v(o@), base),
        d@.ok(),
{
    let mut d = Design::new();
    d.title = opt_str(o, "title", b.title.as_str());
    d.paper = opt_str(o, "paper", b.paper.as_str());
    d.rev = opt_str(o, "rev", b.rev.as_str());
    d.company = opt_str(o, "company", b.company.as_str());
    d.date = opt_str(o, "date", b.date.as_str());
    d.comments = read_comments(o, &b.comments);
    d.lib_symbols = dup_named(&b.lib_symbols);
    d.extra_nodes = dup_nodes(&b.extra_nodes);
    d.uuid = b.uuid.clone();
    d.sheet_path_uuid = b.sheet_path_uuid.clone();
    d.project = b.project.clone();
    assert(d@ =~= design_frame(json::entries_v(o@), base));
    d
}

fn read_parts(v: &Vec<Json>, base: Option<&Design>) -> (r: Vec<Part>)
    requires
        json::all_ok(json::values_v(v@)),
        base is Some ==> base->0@.ok(),
    ensures
        model::parts_v(r@) == Seq::new(
            v@.len(),
            |i: int| part_from(json::values_v(v@)[i], design_v(base)),
        ),
        forall|i: int| 0 <= i < r@.len() ==> model::part_ok((#[trigger] r@[i])@),
{
    let ghost vv = json::values_v(v@);
    let mut r: Vec<Part> = Vec::new();
    let mut i: usize = 0;
    while i < v.len()
        invariant
            i <= v@.len(),
            vv == json::values_v(v@),
            json::all_ok(vv),
            base is Some ==> base->0@.ok(),
            r@.len() == i,
            forall|k: int|
                0 <= k < i ==> (#[trigger] r@[k])@ == part_from(vv[k], design_v(base))
                    && model::part_ok(r@[k]@),
        decreases v@.len() - i,
    {
        assert(vv[i as int] == v@[i as int]@);
        assert(json::ok(vv[i as int]));
        r.push(read_part(&v[i], base));
        i += 1;
    }
    assert(model::parts_v(r@) =~= Seq::new(v@.len(), |i: int| part_from(vv[i], design_v(base))));
    r
}

fn read_powers(v: &Vec<Json>, base: Option<&Design>) -> (r: Vec<Power>)
    requires
        json::all_ok(json::values_v(v@)),
        base is Some ==> base->0@.ok(),
    ensures
        model::powers_v(r@) == Seq::new(
            v@.len(),
            |i: int| power_from(json::values_v(v@)[i], design_v(base)),
        ),
        forall|i: int| 0 <= i < r@.len() ==> model::power_ok((#[trigger] r@[i])@),
{
    let ghost vv = json::values_v(v@);
    let mut r: Vec<Power> = Vec::new();
    let mut i: usize = 0;
    while i < v.len()
        invariant
            i <= v@.len(),
            vv == json::values_v(v@),
            json::all_ok(vv),
            base is Some ==> base->0@.ok(),
            r@.len() == i,
            forall|k: int|
                0 <= k < i ==> (#[trigger] r@[k])@ == power_from(vv[k], design_v(base))
                    && model::power_ok(r@[k]@),
        decreases v@.len() - i,
    {
        assert(vv[i as int] == v@[i as int]@);
        assert(json::ok(vv[i as int]));
        r.push(read_power(&v[i], base));
        i += 1;
    }
    assert(model::powers_v(r@) =~= Seq::new(v@.len(), |i: int| power_from(vv[i], design_v(base))));
    r
}

fn read_labels(v: &Vec<Json>) -> (r: Vec<Label>)
    requires
        json::all_ok(json::values_v(v@)),
    ensures
        model::labels_v(r@) == Seq::new(v@.len(), |i: int| label_from(json::values_v(v@)[i])),
        forall|i: int| 0 <= i < r@.len() ==> model::on_sheet((#[trigger] r@[i]).at),
{
    let ghost vv = json::values_v(v@);
    let mut r: Vec<Label> = Vec::new();
    let mut i: usize = 0;
    while i < v.len()
        invariant
            i <= v@.len(),
            vv == json::values_v(v@),
            json::all_ok(vv),
            r@.len() == i,
            forall|k: int|
                0 <= k < i ==> (#[trigger] r@[k])@ == label_from(vv[k]) && model::on_sheet(r@[k].at),
        decreases v@.len() - i,
    {
        assert(vv[i as int] == v@[i as int]@);
        assert(json::ok(vv[i as int]));
        r.push(read_label(&v[i]));
        i += 1;
    }
    assert(model::labels_v(r@) =~= Seq::new(v@.len(), |i: int| label_from(vv[i])));
    r
}

fn read_texts(v: &Vec<Json>) -> (r: Vec<Text>)
    requires
        json::all_ok(json::values_v(v@)),
    ensures
        model::texts_v(r@) == Seq::new(v@.len(), |i: int| text_from(json::values_v(v@)[i])),
        forall|i: int| 0 <= i < r@.len() ==> model::text_ok((#[trigger] r@[i])@),
{
    let ghost vv = json::values_v(v@);
    let mut r: Vec<Text> = Vec::new();
    let mut i: usize = 0;
    while i < v.len()
        invariant
            i <= v@.len(),
            vv == json::values_v(v@),
            json::all_ok(vv),
            r@.len() == i,
            forall|k: int|
                0 <= k < i ==> (#[trigger] r@[k])@ == text_from(vv[k]) && model::text_ok(r@[k]@),
        decreases v@.len() - i,
    {
        assert(vv[i as int] == v@[i as int]@);
        assert(json::ok(vv[i as int]));
        r.push(read_text(&v[i]));
        i += 1;
    }
    assert(model::texts_v(r@) =~= Seq::new(v@.len(), |i: int| text_from(vv[i])));
    r
}

fn read_rects(v: &Vec<Json>) -> (r: Vec<Rect>)
    requires
        json::all_ok(json::values_v(v@)),
    ensures
        model::rects_v(r@) == Seq::new(v@.len(), |i: int| rect_from(json::values_v(v@)[i])),
        forall|i: int|
            0 <= i < r@.len() ==> model::on_sheet((#[trigger] r@[i]).start) && model::on_sheet(
                r@[i].end,
            ),
{
    let ghost vv = json::values_v(v@);
    let mut r: Vec<Rect> = Vec::new();
    let mut i: usize = 0;
    while i < v.len()
        invariant
            i <= v@.len(),
            vv == json::values_v(v@),
            json::all_ok(vv),
            r@.len() == i,
            forall|k: int|
                0 <= k < i ==> (#[trigger] r@[k])@ == rect_from(vv[k]) && model::on_sheet(r@[k].start)
                    && model::on_sheet(r@[k].end),
        decreases v@.len() - i,
    {
        assert(vv[i as int] == v@[i as int]@);
        assert(json::ok(vv[i as int]));
        r.push(read_rect(&v[i]));
        i += 1;
    }
    assert(model::rects_v(r@) =~= Seq::new(v@.len(), |i: int| rect_from(vv[i])));
    r
}

/// The design that a JSON form describes, over the one it was taken from.
pub fn design_from_json(d: &Json, base: Option<&Design>) -> (r: Design)
    requires
        json::ok(d@),
        base is Some ==> base->0@.ok(),
    ensures
        r@ == design_from(d@, design_v(base)),
        r@.ok(),
{
    let o = normal_entries(d);
    let ghost ov = json::entries_v(o@);
    let mut r = match base {
        Some(b) => frame_from(&o, b, Ghost(Some(b@))),
        None => {
            let b = Design::new();
            frame_from(&o, &b, Ghost(None))
        },
    };
    let ghost r0 = r@;
    r.parts = read_parts(&list_of(&o, "parts"), base);
    r.power = read_powers(&list_of(&o, "power"), base);
    r.wires = read_wires(&list_of(&o, "wires"));
    r.labels = read_labels(&list_of(&o, "labels"));
    r.nc = read_points(&list_of(&o, "nc"));
    r.texts = read_texts(&list_of(&o, "texts"));
    r.rects = read_rects(&list_of(&o, "rects"));
    assert(r@ =~= design_from(d@, design_v(base)));
    assert(r@.ok());
    r
}

proof fn lemma_list_within(d: Seq<(Seq<char>, JsonV)>, k: Seq<char>, m: int)
    requires
        json::fields_within(d, m),
    ensures
        json::all_within(list_at(d, k), m),
{
    json::lemma_look_within(d, k, m);
    match order_map::look(d, k) {
        Some(v) => json::lemma_items_within(v, m),
        None => {},
    }
}

proof fn lemma_unboxed_within(v: Seq<JsonV>, k: Seq<char>, m: int)
    requires
        json::all_within(v, m),
    ensures
        json::within(unboxed_all(v, k), m),
{
    let w = Seq::new(v.len(), |i: int| unboxed(v[i], k));
    assert forall|i: int| 0 <= i < w.len() implies json::within(#[trigger] w[i], m) by {
        assert(json::within(v[i], m));
        json::lemma_items_within(v[i], m);
        json::lemma_look_within(json::entries_of(v[i]), k, m);
    }
    json::lemma_within_arr(w, m);
}

proof fn lemma_untagged_within(d: Seq<(Seq<char>, JsonV)>, k: Seq<char>, m: int)
    requires
        json::fields_within(d, m),
    ensures
        json::fields_within(untagged(d, k), m),
{
    lemma_list_within(d, k, m);
    let v = list_at(d, k);
    let keep = k == "parts"@;
    let w = Seq::new(v.len(), |i: int| bare(v[i], keep));
    assert forall|i: int| 0 <= i < w.len() implies json::within(#[trigger] w[i], m) by {
        assert(json::within(v[i], m));
        json::lemma_items_within(v[i], m);
        let o = json::entries_of(v[i]);
        let t = json::taken_out(o, "id"@);
        order_map::lemma_seek(o, "id"@, 0);
        assert forall|j: int| 0 <= j < t.len() implies json::within((#[trigger] t[j]).1, m) by {
            let s = order_map::seek(o, "id"@, 0);
            if s < o.len() {
                assert(t[j] == o[j] || t[j] == o[o.len() - 1]);
            }
        }
        json::lemma_within_obj(o, m);
        json::lemma_within_obj(t, m);
    }
    json::lemma_within_arr(w, m);
    json::lemma_put_within(d, k, JsonV::Arr(w), m);
}

/// The plain form holds no larger numbers than the tagged one.
pub proof fn lemma_normalized_within(d: JsonV, m: int)
    requires
        json::within(d, m),
    ensures
        json::fields_within(normalized(d), m),
{
    json::lemma_items_within(d, m);
    let d0 = json::entries_of(d);
    lemma_list_within(d0, "wires"@, m);
    lemma_unboxed_within(list_at(d0, "wires"@), "pts"@, m);
    let w = unboxed_all(list_at(d0, "wires"@), "pts"@);
    json::lemma_put_within(d0, "wires"@, w, m);
    let d1 = order_map::put(d0, "wires"@, w);
    lemma_list_within(d1, "nc"@, m);
    lemma_unboxed_within(list_at(d1, "nc"@), "at"@, m);
    let n = unboxed_all(list_at(d1, "nc"@), "at"@);
    json::lemma_put_within(d1, "nc"@, n, m);
    let d2 = order_map::put(d1, "nc"@, n);
    lemma_untagged_within(d2, "labels"@, m);
    let d3 = untagged(d2, "labels"@);
    lemma_untagged_within(d3, "power"@, m);
    let d4 = untagged(d3, "power"@);
    lemma_untagged_within(d4, "texts"@, m);
    let d5 = untagged(d4, "texts"@);
    lemma_untagged_within(d5, "rects"@, m);
    let d6 = untagged(d5, "rects"@);
    lemma_untagged_within(d6, "parts"@, m);
}

} // verus!
