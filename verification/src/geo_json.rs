//! Drawings as plain designs: coordinates in grid steps, whole numbers as integers.
use crate::geo;
use crate::geo::{Geo, GeoV, LabelRec, PartRec, PowerRec, TextRec};
use crate::geom::{BBox, Pt};
use crate::json;
use crate::json::{put_entry, Json, JsonV};
use crate::model;
use crate::model::SHEET_MAX;
use crate::model_json;
use crate::model_json::{list_of, num, object_of, pt_gu, Fields};
use crate::order_map;
use crate::orient;
use crate::orient::cut_off;
use crate::text::same;
use vstd::prelude::*;

verus! {

pub open spec fn fields_json(v: Seq<(Seq<char>, Seq<char>)>) -> Seq<(Seq<char>, JsonV)> {
    Seq::new(v.len(), |i: int| (v[i].0, JsonV::Str(v[i].1)))
}

pub open spec fn part_json(p: geo::PartV) -> JsonV {
    JsonV::Obj(
        seq![
            ("id"@, JsonV::Str(p.id)),
            ("lib"@, JsonV::Str(p.lib)),
            ("at"@, model_json::point_json(p.at)),
            ("rot"@, JsonV::Int(p.rot)),
        ] + model_json::given(p.mirror.len() > 0, "mirror"@, JsonV::Str(p.mirror))
            + model_json::given(p.value.len() > 0, "value"@, JsonV::Str(p.value))
            + model_json::given(p.footprint.len() > 0, "footprint"@, JsonV::Str(p.footprint))
            + model_json::given(
            p.fields.len() > 0,
            "fields"@,
            JsonV::Obj(fields_json(p.fields)),
        ) + model_json::given(p.unit != 1, "unit"@, JsonV::Int(p.unit)) + model_json::given(
            p.dnp,
            "dnp"@,
            JsonV::Bool(true),
        ),
    )
}

pub open spec fn power_json(p: geo::PowerV) -> JsonV {
    JsonV::Obj(
        seq![
            ("net"@, JsonV::Str(p.net)),
            ("at"@, model_json::point_json(p.at)),
            ("rot"@, JsonV::Int(p.rot)),
        ],
    )
}

pub open spec fn label_json(p: geo::LabelV) -> JsonV {
    JsonV::Obj(
        seq![
            ("text"@, JsonV::Str(p.text)),
            ("at"@, model_json::point_json(p.at)),
            ("rot"@, JsonV::Int(p.rot)),
        ] + model_json::given(p.kind != "local"@, "type"@, JsonV::Str(p.kind)) + model_json::given(
            p.kind != "local"@,
            "shape"@,
            JsonV::Str(p.shape),
        ),
    )
}

pub open spec fn text_json(p: geo::TextV) -> JsonV {
    JsonV::Obj(
        seq![
            ("text"@, JsonV::Str(p.text)),
            ("at"@, model_json::point_json(p.at)),
            ("size"@, model_json::num_json(10 * orient::cut(p.size))),
            ("bold"@, JsonV::Bool(p.bold)),
        ],
    )
}

pub open spec fn rect_json(b: BBox) -> JsonV {
    JsonV::Obj(
        seq![
            ("start"@, model_json::point_json(Pt { x: b.x0, y: b.y0 })),
            ("end"@, model_json::point_json(Pt { x: b.x1, y: b.y1 })),
        ],
    )
}

pub open spec fn path_json(p: Seq<Pt>) -> JsonV {
    JsonV::Arr(Seq::new(p.len(), |i: int| model_json::point_json(p[i])))
}

pub open spec fn parts_json(v: Seq<geo::PartV>) -> Seq<JsonV> {
    Seq::new(v.len(), |i: int| part_json(v[i]))
}

pub open spec fn powers_json(v: Seq<geo::PowerV>) -> Seq<JsonV> {
    Seq::new(v.len(), |i: int| power_json(v[i]))
}

pub open spec fn labels_json(v: Seq<geo::LabelV>) -> Seq<JsonV> {
    Seq::new(v.len(), |i: int| label_json(v[i]))
}

pub open spec fn texts_json(v: Seq<geo::TextV>) -> Seq<JsonV> {
    Seq::new(v.len(), |i: int| text_json(v[i]))
}

pub open spec fn rects_json(v: Seq<BBox>) -> Seq<JsonV> {
    Seq::new(v.len(), |i: int| rect_json(v[i]))
}

pub open spec fn paths_json(v: Seq<Seq<Pt>>) -> Seq<JsonV> {
    Seq::new(v.len(), |i: int| path_json(v[i]))
}

pub open spec fn points_json(v: Seq<Pt>) -> Seq<JsonV> {
    Seq::new(v.len(), |i: int| model_json::point_json(v[i]))
}

/// The lists of a drawing under their names.
pub open spec fn lists_of(g: GeoV) -> Seq<(Seq<char>, Seq<JsonV>)> {
    seq![
        ("parts"@, parts_json(g.parts)),
        ("power"@, powers_json(g.power)),
        ("wires"@, paths_json(g.wires)),
        ("labels"@, labels_json(g.labels)),
        ("nc"@, points_json(g.nc)),
        ("texts"@, texts_json(g.texts)),
        ("rects"@, rects_json(g.rects)),
    ]
}

pub open spec fn geo_json(g: GeoV) -> Seq<(Seq<char>, JsonV)> {
    Seq::new(lists_of(g).len(), |i: int| (lists_of(g)[i].0, JsonV::Arr(lists_of(g)[i].1)))
}

fn arr(v: Vec<Json>) -> (r: Json)
    requires
        json::all_ok(json::values_v(v@)),
    ensures
        r@ == JsonV::Arr(json::values_v(v@)),
        json::ok(r@),
{
    proof {
        json::lemma_arr_view(v);
        json::lemma_ok_arr(json::values_v(v@));
    }
    Json::Arr(v)
}

fn empty_text(t: &str) -> (r: bool)
    ensures
        r == (t@.len() == 0),
{
    t.unicode_len() == 0
}

fn write_fields(v: &Vec<(String, String)>) -> (r: Json)
    ensures
        r@ == JsonV::Obj(fields_json(geo::fields_v(v@))),
        json::ok(r@),
{
    let ghost want = fields_json(geo::fields_v(v@));
    let mut f = Fields::new();
    let mut i: usize = 0;
    assert(f@ =~= want.take(0));
    while i < v.len()
        invariant
            i <= v@.len(),
            want == fields_json(geo::fields_v(v@)),
            f@ == want.take(i as int),
            json::fields_ok(f@),
        decreases v@.len() - i,
    {
        f = f.text(v[i].0.as_str(), v[i].1.as_str());
        assert(f@ =~= want.take(i + 1));
        i += 1;
    }
    assert(f@ =~= want);
    f.done()
}

fn write_part(p: &PartRec) -> (r: Json)
    requires
        model::on_sheet(p.at),
    ensures
        r@ == part_json(p@),
        json::ok(r@),
{
    let mut f = Fields::new().text("id", p.id.as_str()).text("lib", p.lib.as_str()).add(
        "at",
        pt_gu(p.at),
    ).add("rot", Json::Int(p.rot as i64));
    assert(f@ =~= seq![
        ("id"@, JsonV::Str(p.id@)),
        ("lib"@, JsonV::Str(p.lib@)),
        ("at"@, model_json::point_json(p.at)),
        ("rot"@, JsonV::Int(p.rot as int)),
    ]);
    f = f.text_unless(empty_text(p.mirror.as_str()), "mirror", p.mirror.as_str()).text_unless(
        empty_text(p.value.as_str()),
        "value",
        p.value.as_str(),
    ).text_unless(empty_text(p.footprint.as_str()), "footprint", p.footprint.as_str());
    let ghost f0 = f@;
    let ghost fv = geo::fields_v(p.fields@);
    assert(fv.len() == p.fields@.len());
    if p.fields.len() > 0 {
        f = f.add("fields", write_fields(&p.fields));
    }
    assert(f@ =~= f0 + model_json::given(
        fv.len() > 0,
        "fields"@,
        JsonV::Obj(fields_json(fv)),
    ));
    f = f.number_if(p.unit != 1, "unit", p.unit as i64).flag_if(p.dnp, "dnp");
    f.done()
}

fn write_power(p: &PowerRec) -> (r: Json)
    requires
        model::on_sheet(p.at),
    ensures
        r@ == power_json(p@),
        json::ok(r@),
{
    let f = Fields::new().text("net", p.net.as_str()).add("at", pt_gu(p.at)).add(
        "rot",
        Json::Int(p.rot as i64),
    );
    assert(f@ =~= power_json(p@)->Obj_0);
    f.done()
}

fn write_label(p: &LabelRec) -> (r: Json)
    requires
        model::on_sheet(p.at),
    ensures
        r@ == label_json(p@),
        json::ok(r@),
{
    let local = same(p.kind.as_str(), "local");
    let f = Fields::new().text("text", p.text.as_str()).add("at", pt_gu(p.at)).add(
        "rot",
        Json::Int(p.rot as i64),
    );
    assert(f@ =~= seq![
        ("text"@, JsonV::Str(p.text@)),
        ("at"@, model_json::point_json(p.at)),
        ("rot"@, JsonV::Int(p.rot as int)),
    ]);
    f.text_unless(local, "type", p.kind.as_str()).text_unless(
        local,
        "shape",
        p.shape.as_str(),
    ).done()
}

fn write_text(p: &TextRec) -> (r: Json)
    requires
        model::on_sheet(p.at),
    ensures
        r@ == text_json(p@),
        json::ok(r@),
{
    let f = Fields::new().text("text", p.text.as_str()).add("at", pt_gu(p.at)).add(
        "size",
        num(10 * cut_off(p.size)),
    ).add("bold", Json::Bool(p.bold));
    assert(f@ =~= text_json(p@)->Obj_0);
    f.done()
}

fn write_rect(b: BBox) -> (r: Json)
    requires
        geo::reach_box(b, SHEET_MAX as int),
    ensures
        r@ == rect_json(b),
        json::ok(r@),
{
    let f = Fields::new().add("start", pt_gu(Pt { x: b.x0, y: b.y0 })).add(
        "end",
        pt_gu(Pt { x: b.x1, y: b.y1 }),
    );
    assert(f@ =~= rect_json(b)->Obj_0);
    f.done()
}

fn write_points(v: &Vec<Pt>) -> (r: Vec<Json>)
    requires
        geo::reach_path(v@, SHEET_MAX as int),
    ensures
        json::values_v(r@) == points_json(v@),
        json::all_ok(json::values_v(r@)),
{
    let ghost want = points_json(v@);
    let mut r: Vec<Json> = Vec::new();
    let mut i: usize = 0;
    while i < v.len()
        invariant
            i <= v@.len(),
            r@.len() == i,
            want == points_json(v@),
            geo::reach_path(v@, SHEET_MAX as int),
            forall|k: int| 0 <= k < i ==> (#[trigger] r@[k])@ == want[k] && json::ok(r@[k]@),
        decreases v@.len() - i,
    {
        assert(geo::reach_pt(v@[i as int], SHEET_MAX as int));
        r.push(pt_gu(v[i]));
        i += 1;
    }
    assert(json::values_v(r@) =~= want);
    r
}

/// The lists of a drawing as values, in the order of their names.
fn write_lists(g: &Geo) -> (r: Vec<Vec<Json>>)
    requires
        g@.within(SHEET_MAX as int),
    ensures
        r@.len() == 7,
        forall|i: int|
            0 <= i < 7 ==> json::values_v((#[trigger] r@[i])@) == lists_of(g@)[i].1 && json::all_ok(
                json::values_v(r@[i]@),
            ),
{
    let ghost gv = g@;
    let mut parts: Vec<Json> = Vec::new();
    let mut i: usize = 0;
    while i < g.parts.len()
        invariant
            i <= g.parts@.len(),
            gv == g@,
            gv.within(SHEET_MAX as int),
            parts@.len() == i,
            forall|k: int|
                0 <= k < i ==> (#[trigger] parts@[k])@ == part_json(gv.parts[k]) && json::ok(
                    parts@[k]@,
                ),
        decreases g.parts@.len() - i,
    {
        assert(gv.parts[i as int] == g.parts@[i as int]@);
        parts.push(write_part(&g.parts[i]));
        i += 1;
    }
    assert(json::values_v(parts@) =~= parts_json(gv.parts));
    let mut power: Vec<Json> = Vec::new();
    i = 0;
    while i < g.power.len()
        invariant
            i <= g.power@.len(),
            gv == g@,
            gv.within(SHEET_MAX as int),
            power@.len() == i,
            forall|k: int|
                0 <= k < i ==> (#[trigger] power@[k])@ == power_json(gv.power[k]) && json::ok(
                    power@[k]@,
                ),
        decreases g.power@.len() - i,
    {
        assert(gv.power[i as int] == g.power@[i as int]@);
        power.push(write_power(&g.power[i]));
        i += 1;
    }
    assert(json::values_v(power@) =~= powers_json(gv.power));
    let mut wires: Vec<Json> = Vec::new();
    i = 0;
    while i < g.wires.len()
        invariant
            i <= g.wires@.len(),
            gv == g@,
            gv.within(SHEET_MAX as int),
            wires@.len() == i,
            forall|k: int|
                0 <= k < i ==> (#[trigger] wires@[k])@ == path_json(gv.wires[k]) && json::ok(
                    wires@[k]@,
                ),
        decreases g.wires@.len() - i,
    {
        assert(gv.wires[i as int] == g.wires@[i as int]@);
        let v = write_points(&g.wires[i]);
        assert(points_json(gv.wires[i as int]) =~= path_json(gv.wires[i as int])->Arr_0);
        wires.push(arr(v));
        i += 1;
    }
    assert(json::values_v(wires@) =~= paths_json(gv.wires));
    let mut labels: Vec<Json> = Vec::new();
    i = 0;
    while i < g.labels.len()
        invariant
            i <= g.labels@.len(),
            gv == g@,
            gv.within(SHEET_MAX as int),
            labels@.len() == i,
            forall|k: int|
                0 <= k < i ==> (#[trigger] labels@[k])@ == label_json(gv.labels[k]) && json::ok(
                    labels@[k]@,
                ),
        decreases g.labels@.len() - i,
    {
        assert(gv.labels[i as int] == g.labels@[i as int]@);
        labels.push(write_label(&g.labels[i]));
        i += 1;
    }
    assert(json::values_v(labels@) =~= labels_json(gv.labels));
    let nc = write_points(&g.nc);
    let mut texts: Vec<Json> = Vec::new();
    i = 0;
    while i < g.texts.len()
        invariant
            i <= g.texts@.len(),
            gv == g@,
            gv.within(SHEET_MAX as int),
            texts@.len() == i,
            forall|k: int|
                0 <= k < i ==> (#[trigger] texts@[k])@ == text_json(gv.texts[k]) && json::ok(
                    texts@[k]@,
                ),
        decreases g.texts@.len() - i,
    {
        assert(gv.texts[i as int] == g.texts@[i as int]@);
        texts.push(write_text(&g.texts[i]));
        i += 1;
    }
    assert(json::values_v(texts@) =~= texts_json(gv.texts));
    let mut rects: Vec<Json> = Vec::new();
    i = 0;
    while i < g.rects.len()
        invariant
            i <= g.rects@.len(),
            gv == g@,
            gv.within(SHEET_MAX as int),
            rects@.len() == i,
            forall|k: int|
                0 <= k < i ==> (#[trigger] rects@[k])@ == rect_json(gv.rects[k]) && json::ok(
                    rects@[k]@,
                ),
        decreases g.rects@.len() - i,
    {
        assert(gv.rects[i as int] == g.rects@[i as int]);
        rects.push(write_rect(g.rects[i]));
        i += 1;
    }
    assert(json::values_v(rects@) =~= rects_json(gv.rects));
    let mut r: Vec<Vec<Json>> = Vec::new();
    r.push(parts);
    r.push(power);
    r.push(wires);
    r.push(labels);
    r.push(nc);
    r.push(texts);
    r.push(rects);
    r
}

/// The names of the lists of a design.
pub open spec fn list_names() -> Seq<Seq<char>> {
    seq!["parts"@, "power"@, "wires"@, "labels"@, "nc"@, "texts"@, "rects"@]
}

fn list_name(i: usize) -> (r: &'static str)
    requires
        i < 7,
    ensures
        r@ == list_names()[i as int],
{
    if i == 0 {
        "parts"
    } else if i == 1 {
        "power"
    } else if i == 2 {
        "wires"
    } else if i == 3 {
        "labels"
    } else if i == 4 {
        "nc"
    } else if i == 5 {
        "texts"
    } else {
        "rects"
    }
}

impl Geo {
    /// The drawing as a plain design.
    pub fn to_json(&self) -> (r: Json)
        requires
            self@.within(SHEET_MAX as int),
        ensures
            r@ == JsonV::Obj(geo_json(self@)),
            json::ok(r@),
    {
        let lists = write_lists(self);
        let ghost want = geo_json(self@);
        let mut f = Fields::new();
        let mut i: usize = 0;
        let mut rest = lists;
        assert(f@ =~= want.take(0));
        while i < 7
            invariant
                i <= 7,
                rest@.len() == 7 - i,
                want == geo_json(self@),
                want.len() == 7,
                forall|k: int|
                    0 <= k < 7 - i ==> json::values_v((#[trigger] rest@[k])@) == lists_of(
                        self@,
                    )[k + i].1 && json::all_ok(json::values_v(rest@[k]@)),
                f@ == want.take(i as int),
                json::fields_ok(f@),
            decreases 7 - i,
        {
            let ghost before = rest@;
            let v = rest.remove(0);
            assert(v@ == before[0]@);
            f = f.add(list_name(i), arr(v));
            assert(f@ =~= want.take(i + 1));
            assert forall|k: int| 0 <= k < 6 - i implies json::values_v((#[trigger] rest@[k])@)
                == lists_of(self@)[k + i + 1].1 && json::all_ok(json::values_v(rest@[k]@)) by {
                assert(rest@[k] == before[k + 1]);
            }
            i += 1;
        }
        assert(f@ =~= want);
        f.done()
    }
}

// ---------------------------------------------------------------- into a design
/// The design with the first `n` lists of a drawing added to its own.
pub open spec fn extended(
    d: Seq<(Seq<char>, JsonV)>,
    lists: Seq<(Seq<char>, Seq<JsonV>)>,
    n: int,
) -> Seq<(Seq<char>, JsonV)>
    decreases n,
{
    if n <= 0 {
        d
    } else {
        let x = extended(d, lists, n - 1);
        order_map::put(
            x,
            lists[n - 1].0,
            JsonV::Arr(model_json::list_at(x, lists[n - 1].0) + lists[n - 1].1),
        )
    }
}

/// A design with a drawing added, on a paper.
pub open spec fn with_drawing(raw: JsonV, g: GeoV, paper: Seq<char>) -> JsonV {
    JsonV::Obj(
        extended(
            order_map::put(json::entries_of(raw), "paper"@, JsonV::Str(paper)),
            lists_of(g),
            7,
        ),
    )
}

/// Adds a drawing to a design and sets its paper.
pub fn add_drawing(raw: &Json, g: &Geo, paper: &str) -> (r: Json)
    requires
        json::ok(raw@),
        g@.within(SHEET_MAX as int),
    ensures
        r@ == with_drawing(raw@, g@, paper@),
        json::ok(r@),
{
    let mut d = object_of(raw);
    let ghost d0 = json::entries_v(d@);
    let p = Json::Str(paper.to_owned());
    proof {
        json::lemma_put_ok(d0, "paper"@, p@);
    }
    put_entry(&mut d, "paper", p);
    let ghost base = json::entries_v(d@);
    let mut rest = write_lists(g);
    let ghost lists = lists_of(g@);
    let mut i: usize = 0;
    while i < 7
        invariant
            i <= 7,
            rest@.len() == 7 - i,
            lists == lists_of(g@),
            lists.len() == 7,
            json::fields_ok(json::entries_v(d@)),
            forall|k: int|
                0 <= k < 7 - i ==> json::values_v((#[trigger] rest@[k])@) == lists[k + i].1
                    && json::all_ok(json::values_v(rest@[k]@)),
            json::entries_v(d@) == extended(base, lists, i as int),
        decreases 7 - i,
    {
        let ghost before = rest@;
        let ghost x = json::entries_v(d@);
        let mut more = rest.remove(0);
        assert(more@ == before[0]@);
        let name = list_name(i);
        let mut v = list_of(&d, name);
        let ghost (a, b) = (json::values_v(v@), json::values_v(more@));
        v.append(&mut more);
        assert(json::values_v(v@) =~= a + b);
        let j = arr(v);
        proof {
            json::lemma_put_ok(x, name@, j@);
        }
        put_entry(&mut d, name, j);
        assert(json::entries_v(d@) == extended(base, lists, i + 1));
        assert forall|k: int| 0 <= k < 6 - i implies json::values_v((#[trigger] rest@[k])@)
            == lists[k + i + 1].1 && json::all_ok(json::values_v(rest@[k]@)) by {
            assert(rest@[k] == before[k + 1]);
        }
        i += 1;
    }
    proof {
        json::lemma_obj_view(d);
        json::lemma_ok_obj(json::entries_v(d@));
    }
    Json::Obj(d)
}

/// What is kept of a design's description.
pub open spec fn heading_names() -> Seq<Seq<char>> {
    seq!["title"@, "rev"@, "date"@, "company"@, "comments"@]
}

/// The design with the first `n` entries of another's description.
pub open spec fn headed(
    d: Seq<(Seq<char>, JsonV)>,
    source: JsonV,
    n: int,
) -> Seq<(Seq<char>, JsonV)>
    decreases n,
{
    if n <= 0 {
        d
    } else {
        let x = headed(d, source, n - 1);
        match json::field(source, heading_names()[n - 1]) {
            Some(v) => order_map::put(x, heading_names()[n - 1], v),
            None => x,
        }
    }
}

fn heading_name(i: usize) -> (r: &'static str)
    requires
        i < 5,
    ensures
        r@ == heading_names()[i as int],
{
    if i == 0 {
        "title"
    } else if i == 1 {
        "rev"
    } else if i == 2 {
        "date"
    } else if i == 3 {
        "company"
    } else {
        "comments"
    }
}

/// The design of a packed sheet: its drawing, its paper, the description of its source.
pub fn sheet_design(g: &Geo, paper: &str, source: &Json) -> (r: Json)
    requires
        g@.within(SHEET_MAX as int),
        json::ok(source@),
    ensures
        r@ == JsonV::Obj(
            headed(
                order_map::put(geo_json(g@), "paper"@, JsonV::Str(paper@)),
                source@,
                5,
            ),
        ),
        json::ok(r@),
{
    let j = g.to_json();
    let mut d = object_of(&j);
    let ghost d0 = json::entries_v(d@);
    let p = Json::Str(paper.to_owned());
    proof {
        json::lemma_put_ok(d0, "paper"@, p@);
    }
    put_entry(&mut d, "paper", p);
    let ghost base = json::entries_v(d@);
    let mut i: usize = 0;
    while i < 5
        invariant
            i <= 5,
            json::ok(source@),
            json::fields_ok(json::entries_v(d@)),
            json::entries_v(d@) == headed(base, source@, i as int),
        decreases 5 - i,
    {
        let k = heading_name(i);
        if let Some(v) = source.get(k) {
            proof {
                json::lemma_put_ok(json::entries_v(d@), k@, v@);
            }
            put_entry(&mut d, k, v.dup());
        }
        i += 1;
    }
    proof {
        json::lemma_obj_view(d);
        json::lemma_ok_obj(json::entries_v(d@));
    }
    Json::Obj(d)
}

} // verus!
