//! The JSON form of a design holds the design: what is written is read back.
use crate::edit;
use crate::extract;
use crate::json;
use crate::json::JsonV;
use crate::model;
use crate::model::{AnchorV, DesignV, LabelV, PartV, PowerV, RectV, TextV};
use crate::geom::Pt;
use crate::model_json;
use crate::model_json::list_at;
use crate::names;
use crate::order_map;
use crate::order_map::look;
use crate::patching;
use crate::patching::Entries;
use vstd::prelude::*;

verus! {

// ---------------------------------------------------------------- entries
proof fn lemma_both(a: Entries, b: Entries, q: Seq<char>)
    ensures
        look(a + b, q) == (if look(a, q) is Some {
            look(a, q)
        } else {
            look(b, q)
        }),
{
    let m = a + b;
    order_map::lemma_seek(a, q, 0);
    order_map::lemma_seek(b, q, 0);
    order_map::lemma_seek(m, q, 0);
    let i = order_map::seek(a, q, 0);
    let j = order_map::seek(b, q, 0);
    let k = order_map::seek(m, q, 0);
    if i < a.len() {
        assert(m[i].0 == q);
        if k < i {
            assert(m[k] == a[k]);
        }
        assert(k == i);
    } else {
        if k < a.len() {
            assert(m[k] == a[k]);
        }
        if j < b.len() {
            assert(m[a.len() + j] == b[j]);
            if k > a.len() + j {
                assert(m[a.len() + j].0 != q);
            }
        }
        if k < m.len() {
            assert(m[k] == b[k - a.len()]);
            if k - a.len() < j {
                assert(b[k - a.len()].0 != q);
            }
        }
    }
}

proof fn lemma_one(k: Seq<char>, v: JsonV, q: Seq<char>)
    ensures
        look(seq![(k, v)], q) == (if q == k {
            Some(v)
        } else {
            None
        }),
{
    let m: Entries = seq![(k, v)];
    order_map::lemma_seek(m, q, 0);
    if q == k {
        assert(m[0].0 == q);
    }
}

/// What is found behind entries and an optional one more.
proof fn lemma_given(a: Entries, keep: bool, k: Seq<char>, v: JsonV, q: Seq<char>)
    ensures
        look(a + model_json::given(keep, k, v), q) == (if look(a, q) is Some {
            look(a, q)
        } else if keep && q == k {
            Some(v)
        } else {
            None
        }),
{
    lemma_both(a, model_json::given(keep, k, v), q);
    lemma_one(k, v, q);
    let none: Entries = Seq::empty();
    order_map::lemma_seek(none, q, 0);
}

proof fn lemma_anchor_given(a: Entries, k: Seq<char>, x: Option<AnchorV>, q: Seq<char>)
    ensures
        look(a + model_json::given_anchor(k, x), q) == (if look(a, q) is Some {
            look(a, q)
        } else if x is Some && q == k {
            Some(model_json::anchor_json(x->0))
        } else {
            None
        }),
{
    let v = match x {
        Some(y) => model_json::anchor_json(y),
        None => JsonV::Null,
    };
    lemma_given(a, x is Some, k, v, q);
    assert(model_json::given_anchor(k, x) =~= model_json::given(x is Some, k, v));
}

proof fn lemma_two(k: Seq<char>, v: JsonV, l: Seq<char>, w: JsonV, q: Seq<char>)
    ensures
        look(seq![(k, v), (l, w)], q) == (if q == k {
            Some(v)
        } else if q == l {
            Some(w)
        } else {
            None
        }),
{
    let a: Entries = seq![(k, v)];
    let b: Entries = seq![(l, w)];
    lemma_both(a, b, q);
    lemma_one(k, v, q);
    lemma_one(l, w, q);
    assert(a + b =~= seq![(k, v), (l, w)]);
}

/// A key told from others: its length and its first letter.
spec fn code(k: Seq<char>) -> (nat, char) {
    (k.len(), k[0])
}

proof fn lemma_codes()
    ensures
        code("id"@) == (2nat, 'i'),
        code("lib"@) == (3nat, 'l'),
        code("at"@) == (2nat, 'a'),
        code("rot"@) == (3nat, 'r'),
        code("lib_name"@) == (8nat, 'l'),
        code("mirror"@) == (6nat, 'm'),
        code("value"@) == (5nat, 'v'),
        code("unit"@) == (4nat, 'u'),
        code("footprint"@) == (9nat, 'f'),
        code("dnp"@) == (3nat, 'd'),
        code("fields"@) == (6nat, 'f'),
        code("ref_at"@) == (6nat, 'r'),
        code("val_at"@) == (6nat, 'v'),
        code("hide_value"@) == (10nat, 'h'),
{
    reveal_strlit("id");
    reveal_strlit("lib");
    reveal_strlit("at");
    reveal_strlit("rot");
    reveal_strlit("lib_name");
    reveal_strlit("mirror");
    reveal_strlit("value");
    reveal_strlit("unit");
    reveal_strlit("footprint");
    reveal_strlit("dnp");
    reveal_strlit("fields");
    reveal_strlit("ref_at");
    reveal_strlit("val_at");
    reveal_strlit("hide_value");
}

proof fn lemma_more_codes()
    ensures
        code("net"@) == (3nat, 'n'),
        code("at"@) == (2nat, 'a'),
        code("rot"@) == (3nat, 'r'),
        code("lib"@) == (3nat, 'l'),
        code("mirror"@) == (6nat, 'm'),
        code("text"@) == (4nat, 't'),
        code("type"@) == (4nat, 't'),
        "text"@ != "type"@,
        code("shape"@) == (5nat, 's'),
        code("size"@) == (4nat, 's'),
        code("bold"@) == (4nat, 'b'),
        code("justify"@) == (7nat, 'j'),
        code("start"@) == (5nat, 's'),
        code("end"@) == (3nat, 'e'),
{
    reveal_strlit("net");
    reveal_strlit("at");
    reveal_strlit("rot");
    reveal_strlit("lib");
    reveal_strlit("mirror");
    reveal_strlit("text");
    reveal_strlit("type");
    reveal_strlit("shape");
    reveal_strlit("size");
    reveal_strlit("bold");
    reveal_strlit("justify");
    reveal_strlit("start");
    reveal_strlit("end");
    assert("text"@[1] != "type"@[1]);
}

// ---------------------------------------------------------------- points and numbers
/// A point of the sheet on hundredths of a grid step.
pub open spec fn fine(p: Pt) -> bool {
    p.x % 1270 == 0 && p.y % 1270 == 0 && model::on_sheet(p)
}

proof fn lemma_coord(v: int)
    requires
        v % 1270 == 0,
        model::in_sheet(v),
    ensures
        json::num_in(model_json::grid_num(v)) == Some(model_json::to_grid(v) * 1000),
        model_json::from_grid(model_json::to_grid(v) * 1000) == v,
{
    model_json::grid_steps_keep_coordinates(v);
    let k = v / 1270;
    assert(v == 1270 * k);
    assert(model_json::to_grid(v) == 10 * k) by {
        let m = if v < 0 { -v } else { v };
        let j = if k < 0 { -k } else { k };
        assert(m == 1270 * j);
        assert(m / 127 == 10 * j && m % 127 == 0);
    }
    let m = model_json::to_grid(v) * 1000;
    assert(m == 10_000 * k);
    if m % 1_000_000 == 0 {
        assert(m / 1_000_000 * 1_000_000 == m);
    }
}

proof fn lemma_point(p: Pt, rest: Seq<JsonV>)
    requires
        fine(p),
    ensures
        model_json::point_of(
            JsonV::Arr(
                seq![model_json::grid_num(p.x as int), model_json::grid_num(p.y as int)] + rest,
            ),
        ) == p,
        model_json::point_of(model_json::point_json(p)) == p,
{
    lemma_coord(p.x as int);
    lemma_coord(p.y as int);
    let a = seq![model_json::grid_num(p.x as int), model_json::grid_num(p.y as int)];
    let v = a + rest;
    assert(v[0] == a[0] && v[1] == a[1]);
}

/// Whether an anchor stands on hundredths of a grid step.
pub open spec fn fine_anchor(a: Option<AnchorV>) -> bool {
    a is Some ==> fine(a->0.at)
}

proof fn lemma_anchor(a: AnchorV)
    requires
        fine(a.at),
    ensures
        model_json::anchor_of(Some(model_json::anchor_json(a))) == Some(a),
{
    lemma_point(a.at, a.rest);
    let v = seq![model_json::grid_num(a.at.x as int), model_json::grid_num(a.at.y as int)] + a.rest;
    assert(v.len() == 2 + a.rest.len());
    let r = model_json::anchor_of(Some(model_json::anchor_json(a)))->0;
    if v.len() <= 2 {
        assert(a.rest =~= Seq::empty());
    } else {
        assert(v.skip(2) =~= a.rest);
    }
    assert(r =~= a);
}

proof fn lemma_whole(o: Entries, k: Seq<char>, v: int, other: int)
    requires
        i32::MIN <= v <= i32::MAX,
        -1000 <= other <= 1000,
        look(o, k) == (if v != other {
            Some(JsonV::Int(v))
        } else {
            None
        }) || look(o, k) == Some(JsonV::Int(v)),
    ensures
        model_json::whole_else(o, k, other) == v,
{
}

// ---------------------------------------------------------------- parts
/// A part whose numbers can be told.
pub open spec fn plain_part(p: PartV) -> bool {
    &&& fine(p.at)
    &&& i32::MIN <= p.rot <= i32::MAX
    &&& i32::MIN <= p.unit <= i32::MAX
    &&& fine_anchor(p.ref_at)
    &&& fine_anchor(p.val_at)
}

/// What is found in the JSON form of a part.
spec fn part_entry(p: PartV, q: Seq<char>) -> Option<JsonV> {
    if q == "id"@ {
        Some(JsonV::Str(p.id))
    } else if q == "lib"@ {
        Some(JsonV::Str(p.lib))
    } else if q == "at"@ {
        Some(model_json::point_json(p.at))
    } else if q == "rot"@ {
        Some(JsonV::Int(p.rot))
    } else if q == "lib_name"@ && p.lib_name.len() > 0 {
        Some(JsonV::Str(p.lib_name))
    } else if q == "mirror"@ && p.mirror.len() > 0 {
        Some(JsonV::Str(p.mirror))
    } else if q == "value"@ && p.value.len() > 0 {
        Some(JsonV::Str(p.value))
    } else if q == "unit"@ && p.unit != 1 {
        Some(JsonV::Int(p.unit))
    } else if q == "footprint"@ && p.footprint.len() > 0 {
        Some(JsonV::Str(p.footprint))
    } else if q == "dnp"@ && p.dnp {
        Some(JsonV::Bool(true))
    } else if q == "fields"@ && p.fields.len() > 0 {
        Some(JsonV::Obj(p.fields))
    } else if q == "ref_at"@ && p.ref_at is Some {
        Some(model_json::anchor_json(p.ref_at->0))
    } else if q == "val_at"@ && p.val_at is Some {
        Some(model_json::anchor_json(p.val_at->0))
    } else if q == "hide_value"@ && p.hide_value {
        Some(JsonV::Bool(true))
    } else {
        None
    }
}

/// The first entries of the JSON form of a part.
#[verifier::opaque]
spec fn part_start(p: PartV) -> Entries {
    seq![
        ("id"@, JsonV::Str(p.id)),
        ("lib"@, JsonV::Str(p.lib)),
        ("at"@, model_json::point_json(p.at)),
        ("rot"@, JsonV::Int(p.rot)),
    ]
}

#[verifier::opaque]
spec fn part_middle(p: PartV) -> Entries {
    part_start(p) + model_json::given_text("lib_name"@, p.lib_name) + model_json::given_text(
        "mirror"@,
        p.mirror,
    ) + model_json::given_text("value"@, p.value) + model_json::given(
        p.unit != 1,
        "unit"@,
        JsonV::Int(p.unit),
    ) + model_json::given_text("footprint"@, p.footprint)
}

proof fn lemma_part_start(p: PartV, q: Seq<char>)
    ensures
        look(part_start(p), q) == (if q == "id"@ {
            Some(JsonV::Str(p.id))
        } else if q == "lib"@ {
            Some(JsonV::Str(p.lib))
        } else if q == "at"@ {
            Some(model_json::point_json(p.at))
        } else if q == "rot"@ {
            Some(JsonV::Int(p.rot))
        } else {
            None
        }),
{
    reveal(part_start);
    let h1: Entries = seq![("id"@, JsonV::Str(p.id)), ("lib"@, JsonV::Str(p.lib))];
    let h2: Entries = seq![("at"@, model_json::point_json(p.at)), ("rot"@, JsonV::Int(p.rot))];
    assert(part_start(p) =~= h1 + h2);
    lemma_both(h1, h2, q);
    lemma_two("id"@, JsonV::Str(p.id), "lib"@, JsonV::Str(p.lib), q);
    lemma_two("at"@, model_json::point_json(p.at), "rot"@, JsonV::Int(p.rot), q);
}

proof fn lemma_part_middle(p: PartV, q: Seq<char>)
    ensures
        look(part_middle(p), q) == (if look(part_start(p), q) is Some {
            look(part_start(p), q)
        } else if q == "lib_name"@ && p.lib_name.len() > 0 {
            Some(JsonV::Str(p.lib_name))
        } else if q == "mirror"@ && p.mirror.len() > 0 {
            Some(JsonV::Str(p.mirror))
        } else if q == "value"@ && p.value.len() > 0 {
            Some(JsonV::Str(p.value))
        } else if q == "unit"@ && p.unit != 1 {
            Some(JsonV::Int(p.unit))
        } else if q == "footprint"@ && p.footprint.len() > 0 {
            Some(JsonV::Str(p.footprint))
        } else {
            None
        }),
{
    reveal(part_middle);
    let a0 = part_start(p);
    let a1 = a0 + model_json::given_text("lib_name"@, p.lib_name);
    lemma_given(a0, p.lib_name.len() > 0, "lib_name"@, JsonV::Str(p.lib_name), q);
    let a2 = a1 + model_json::given_text("mirror"@, p.mirror);
    lemma_given(a1, p.mirror.len() > 0, "mirror"@, JsonV::Str(p.mirror), q);
    let a3 = a2 + model_json::given_text("value"@, p.value);
    lemma_given(a2, p.value.len() > 0, "value"@, JsonV::Str(p.value), q);
    let a4 = a3 + model_json::given(p.unit != 1, "unit"@, JsonV::Int(p.unit));
    lemma_given(a3, p.unit != 1, "unit"@, JsonV::Int(p.unit), q);
    lemma_given(a4, p.footprint.len() > 0, "footprint"@, JsonV::Str(p.footprint), q);
}

proof fn lemma_part_is(p: PartV)
    ensures
        json::entries_of(model_json::part_json(p)) == part_middle(p) + model_json::given(
            p.dnp,
            "dnp"@,
            JsonV::Bool(true),
        ) + model_json::given(p.fields.len() > 0, "fields"@, JsonV::Obj(p.fields))
            + model_json::given_anchor("ref_at"@, p.ref_at) + model_json::given_anchor(
            "val_at"@,
            p.val_at,
        ) + model_json::given(p.hide_value, "hide_value"@, JsonV::Bool(true)),
{
    reveal(part_start);
    reveal(part_middle);
}

proof fn lemma_part_entry(p: PartV, q: Seq<char>)
    ensures
        look(json::entries_of(model_json::part_json(p)), q) == part_entry(p, q),
{
    lemma_part_is(p);
    lemma_part_start(p, q);
    lemma_part_middle(p, q);
    let a5 = part_middle(p);
    let a6 = a5 + model_json::given(p.dnp, "dnp"@, JsonV::Bool(true));
    lemma_given(a5, p.dnp, "dnp"@, JsonV::Bool(true), q);
    let a7 = a6 + model_json::given(p.fields.len() > 0, "fields"@, JsonV::Obj(p.fields));
    lemma_given(a6, p.fields.len() > 0, "fields"@, JsonV::Obj(p.fields), q);
    let a8 = a7 + model_json::given_anchor("ref_at"@, p.ref_at);
    lemma_anchor_given(a7, "ref_at"@, p.ref_at, q);
    let a9 = a8 + model_json::given_anchor("val_at"@, p.val_at);
    lemma_anchor_given(a8, "val_at"@, p.val_at, q);
    lemma_given(a9, p.hide_value, "hide_value"@, JsonV::Bool(true), q);
}

/// A part is read from its JSON form as it was, but for its identifier on the sheet.
#[verifier::spinoff_prover]
#[verifier::rlimit(60)]
pub proof fn a_part_is_read_back(p: PartV)
    requires
        plain_part(p),
    ensures
        model_json::stated_part(json::entries_of(model_json::part_json(p))) == (PartV {
            uuid: Seq::empty(),
            ..p
        }),
{
    let o = json::entries_of(model_json::part_json(p));
    lemma_codes();
    lemma_point(p.at, Seq::empty());
    assert forall|q: Seq<char>| #[trigger] look(o, q) == part_entry(p, q) by {
        lemma_part_entry(p, q);
    }
    if p.ref_at is Some {
        lemma_anchor(p.ref_at->0);
    }
    if p.val_at is Some {
        lemma_anchor(p.val_at->0);
    }
    lemma_whole(o, "rot"@, p.rot, 0);
    lemma_whole(o, "unit"@, p.unit, 1);
    let r = model_json::stated_part(o);
    assert(r.id == p.id && r.lib == p.lib && r.at == p.at);
    assert(r.lib_name =~= p.lib_name);
    assert(r.mirror =~= p.mirror);
    assert(r.value =~= p.value);
    assert(r.footprint =~= p.footprint);
    assert(r.dnp == p.dnp && r.hide_value == p.hide_value);
    assert(r.fields =~= p.fields);
    assert(r.ref_at == p.ref_at && r.val_at == p.val_at);
    assert(r =~= PartV { uuid: Seq::empty(), ..p });
}

// ---------------------------------------------------------------- other items
/// A power symbol whose numbers can be told and that names its symbol.
pub open spec fn plain_power(p: PowerV) -> bool {
    fine(p.at) && i32::MIN <= p.rot <= i32::MAX && p.lib.len() > 0
}

/// A power symbol without what its JSON form does not show.
pub open spec fn bare_power(p: PowerV) -> PowerV {
    PowerV {
        reference: Seq::empty(),
        uuid: Seq::empty(),
        value: Seq::empty(),
        val_at: None,
        hide_value: false,
        ..p
    }
}

/// A power symbol is read from its JSON form: its net, its place, how it is turned and its symbol.
pub proof fn a_power_symbol_is_read_back(p: PowerV)
    requires
        plain_power(p),
    ensures
        model_json::stated_power(json::entries_of(model_json::power_json(p))) == bare_power(p),
{
    let o = json::entries_of(model_json::power_json(p));
    let keep = p.lib.len() > 0 && p.lib != "power:"@ + p.net;
    let a0: Entries = seq![("net"@, JsonV::Str(p.net)), ("at"@, model_json::point_json(p.at))];
    let a1 = a0 + model_json::given(p.rot != 0, "rot"@, JsonV::Int(p.rot));
    let a2 = a1 + model_json::given(keep, "lib"@, JsonV::Str(p.lib));
    lemma_more_codes();
    lemma_point(p.at, Seq::empty());
    assert forall|q: Seq<char>| #[trigger] look(o, q) == (if q == "net"@ {
        Some(JsonV::Str(p.net))
    } else if q == "at"@ {
        Some(model_json::point_json(p.at))
    } else if q == "rot"@ && p.rot != 0 {
        Some(JsonV::Int(p.rot))
    } else if q == "lib"@ && keep {
        Some(JsonV::Str(p.lib))
    } else if q == "mirror"@ && p.mirror.len() > 0 {
        Some(JsonV::Str(p.mirror))
    } else {
        None
    }) by {
        lemma_two("net"@, JsonV::Str(p.net), "at"@, model_json::point_json(p.at), q);
        lemma_given(a0, p.rot != 0, "rot"@, JsonV::Int(p.rot), q);
        lemma_given(a1, keep, "lib"@, JsonV::Str(p.lib), q);
        lemma_given(a2, p.mirror.len() > 0, "mirror"@, JsonV::Str(p.mirror), q);
    }
    lemma_whole(o, "rot"@, p.rot, 0);
    let r = model_json::stated_power(o);
    assert(r.mirror =~= p.mirror);
    assert(r =~= bare_power(p));
}

/// A label whose numbers can be told; a local one has the usual shape.
pub open spec fn plain_label(l: LabelV) -> bool {
    &&& fine(l.at)
    &&& i32::MIN <= l.rot <= i32::MAX
    &&& l.kind == "local"@ ==> l.shape == "input"@
}

/// A label is read from its JSON form as it was, but for its identifier and how it is set.
pub proof fn a_label_is_read_back(l: LabelV)
    requires
        plain_label(l),
    ensures
        model_json::label_from(model_json::label_json(l)) == (LabelV {
            uuid: Seq::empty(),
            justify: Seq::empty(),
            ..l
        }),
{
    let o = json::entries_of(model_json::label_json(l));
    let far = l.kind != "local"@;
    let a0: Entries = seq![("text"@, JsonV::Str(l.text)), ("at"@, model_json::point_json(l.at))];
    let a1 = a0 + model_json::given(l.rot != 0, "rot"@, JsonV::Int(l.rot));
    let a2 = a1 + model_json::given(far, "type"@, JsonV::Str(l.kind));
    let shaped = far && l.shape != "input"@;
    lemma_more_codes();
    lemma_point(l.at, Seq::empty());
    assert forall|q: Seq<char>| #[trigger] look(o, q) == (if q == "text"@ {
        Some(JsonV::Str(l.text))
    } else if q == "at"@ {
        Some(model_json::point_json(l.at))
    } else if q == "rot"@ && l.rot != 0 {
        Some(JsonV::Int(l.rot))
    } else if q == "type"@ && far {
        Some(JsonV::Str(l.kind))
    } else if q == "shape"@ && shaped {
        Some(JsonV::Str(l.shape))
    } else {
        None
    }) by {
        lemma_two("text"@, JsonV::Str(l.text), "at"@, model_json::point_json(l.at), q);
        lemma_given(a0, l.rot != 0, "rot"@, JsonV::Int(l.rot), q);
        lemma_given(a1, far, "type"@, JsonV::Str(l.kind), q);
        lemma_given(a2, shaped, "shape"@, JsonV::Str(l.shape), q);
    }
    lemma_whole(o, "rot"@, l.rot, 0);
    assert(model_json::label_from(model_json::label_json(l)) =~= LabelV {
        uuid: Seq::empty(),
        justify: Seq::empty(),
        ..l
    });
}

/// A text whose numbers can be told.
pub open spec fn plain_note(t: TextV) -> bool {
    fine(t.at) && i32::MIN <= t.rot <= i32::MAX
}

/// A text is read from its JSON form as it was, but for its identifier.
pub proof fn a_text_is_read_back(t: TextV)
    requires
        plain_note(t),
    ensures
        model_json::text_from(model_json::text_json(t)) == (TextV { uuid: Seq::empty(), ..t }),
{
    let o = json::entries_of(model_json::text_json(t));
    let own = t.justify != "left bottom"@;
    let a0: Entries = seq![("text"@, JsonV::Str(t.text)), ("at"@, model_json::point_json(t.at))];
    let a1 = a0 + model_json::given(t.rot != 0, "rot"@, JsonV::Int(t.rot));
    let a2 = a1 + model_json::given(t.size != 127_000, "size"@, JsonV::Dec(t.size * 10));
    let a3 = a2 + model_json::given(t.bold, "bold"@, JsonV::Bool(true));
    lemma_more_codes();
    lemma_point(t.at, Seq::empty());
    assert forall|q: Seq<char>| #[trigger] look(o, q) == (if q == "text"@ {
        Some(JsonV::Str(t.text))
    } else if q == "at"@ {
        Some(model_json::point_json(t.at))
    } else if q == "rot"@ && t.rot != 0 {
        Some(JsonV::Int(t.rot))
    } else if q == "size"@ && t.size != 127_000 {
        Some(JsonV::Dec(t.size * 10))
    } else if q == "bold"@ && t.bold {
        Some(JsonV::Bool(true))
    } else if q == "justify"@ && own {
        Some(JsonV::Str(t.justify))
    } else {
        None
    }) by {
        lemma_two("text"@, JsonV::Str(t.text), "at"@, model_json::point_json(t.at), q);
        lemma_given(a0, t.rot != 0, "rot"@, JsonV::Int(t.rot), q);
        lemma_given(a1, t.size != 127_000, "size"@, JsonV::Dec(t.size * 10), q);
        lemma_given(a2, t.bold, "bold"@, JsonV::Bool(true), q);
        lemma_given(a3, own, "justify"@, JsonV::Str(t.justify), q);
    }
    lemma_whole(o, "rot"@, t.rot, 0);
    assert(extract::units_of(t.size * 10) == t.size);
    assert(extract::units_of(1_270_000) == 127_000);
    assert(model_json::text_from(model_json::text_json(t)) =~= TextV { uuid: Seq::empty(), ..t });
}

/// A frame is read from its JSON form as it was, but for its identifier.
pub proof fn a_frame_is_read_back(r: RectV)
    requires
        fine(r.start),
        fine(r.end),
    ensures
        model_json::rect_from(model_json::rect_json(r)) == (RectV { uuid: Seq::empty(), ..r }),
{
    lemma_more_codes();
    lemma_point(r.start, Seq::empty());
    lemma_point(r.end, Seq::empty());
    lemma_two(
        "start"@,
        model_json::point_json(r.start),
        "end"@,
        model_json::point_json(r.end),
        "start"@,
    );
    lemma_two(
        "start"@,
        model_json::point_json(r.start),
        "end"@,
        model_json::point_json(r.end),
        "end"@,
    );
    assert(model_json::rect_from(model_json::rect_json(r)) =~= RectV { uuid: Seq::empty(), ..r });
}

/// A wire whose points can be told.
pub open spec fn plain_wire(w: Seq<Pt>) -> bool {
    w.len() >= 2 && forall|i: int| 0 <= i < w.len() ==> fine(#[trigger] w[i])
}

proof fn lemma_wires(v: Seq<JsonV>, ws: Seq<Seq<Pt>>, n: int)
    requires
        v.len() == ws.len(),
        0 <= n <= v.len(),
        forall|i: int| 0 <= i < ws.len() ==> plain_wire(#[trigger] ws[i]),
        forall|i: int| 0 <= i < ws.len() ==> #[trigger] v[i] == model_json::path_json(ws[i]),
    ensures
        model_json::wires_from(v, n) == ws.take(n),
    decreases n,
{
    if n > 0 {
        lemma_wires(v, ws, n - 1);
        let w = ws[n - 1];
        assert(plain_wire(w));
        assert(v[n - 1] == model_json::path_json(w));
        let p = model_json::points_from(v[n - 1]->Arr_0);
        assert forall|i: int| 0 <= i < w.len() implies p[i] == w[i] by {
            lemma_point(w[i], Seq::empty());
        }
        assert(p =~= w);
        assert(ws.take(n) =~= ws.take(n - 1).push(w));
    } else {
        assert(ws.take(0) =~= Seq::empty());
    }
}

// ---------------------------------------------------------------- a whole design
/// A design whose numbers can be told.
pub open spec fn plain_design(d: DesignV) -> bool {
    &&& forall|i: int| 0 <= i < d.parts.len() ==> plain_part(#[trigger] d.parts[i])
    &&& forall|i: int| 0 <= i < d.power.len() ==> plain_power(#[trigger] d.power[i])
    &&& forall|i: int| 0 <= i < d.wires.len() ==> plain_wire(#[trigger] d.wires[i])
    &&& forall|i: int| 0 <= i < d.labels.len() ==> plain_label(#[trigger] d.labels[i])
    &&& forall|i: int| 0 <= i < d.nc.len() ==> fine(#[trigger] d.nc[i])
    &&& forall|i: int| 0 <= i < d.texts.len() ==> plain_note(#[trigger] d.texts[i])
    &&& forall|i: int|
        0 <= i < d.rects.len() ==> fine((#[trigger] d.rects[i]).start) && fine(d.rects[i].end)
}

/// Whether a design shows what another does: its title block and everything that stands on it, but
/// for identifiers, how labels are set, and what only a sheet says of power symbols.
pub open spec fn shows(e: DesignV, d: DesignV) -> bool {
    &&& e.title == d.title
    &&& e.paper == d.paper
    &&& e.rev == d.rev
    &&& e.company == d.company
    &&& e.date == d.date
    &&& e.comments == d.comments
    &&& e.parts == Seq::new(
        d.parts.len(),
        |i: int| PartV { uuid: Seq::empty(), ..d.parts[i] },
    )
    &&& e.power == Seq::new(d.power.len(), |i: int| bare_power(d.power[i]))
    &&& e.wires == d.wires
    &&& e.labels == Seq::new(
        d.labels.len(),
        |i: int| LabelV { uuid: Seq::empty(), justify: Seq::empty(), ..d.labels[i] },
    )
    &&& e.nc == d.nc
    &&& e.texts == Seq::new(d.texts.len(), |i: int| TextV { uuid: Seq::empty(), ..d.texts[i] })
    &&& e.rects == Seq::new(d.rects.len(), |i: int| RectV { uuid: Seq::empty(), ..d.rects[i] })
}

/// Items with the same entries read the same.
proof fn lemma_same(a: JsonV, b: JsonV)
    requires
        edit::same_entries(a, b),
    ensures
        model_json::label_from(a) == model_json::label_from(b),
        model_json::text_from(a) == model_json::text_from(b),
        model_json::rect_from(a) == model_json::rect_from(b),
        model_json::stated_power(json::entries_of(a)) == model_json::stated_power(
            json::entries_of(b),
        ),
        model_json::stated_part(json::entries_of(a)) == model_json::stated_part(
            json::entries_of(b),
        ),
{
    if a != b {
        let (x, y) = (json::entries_of(a), json::entries_of(b));
        assert forall|q: Seq<char>| #[trigger] look(x, q) == look(y, q) by {
            assert(json::field(a, q) == json::field(b, q));
        }
    }
}

/// List `k` of the JSON form of a design, without its tags.
spec fn list_of(d: DesignV, ids: bool, k: int) -> Seq<JsonV> {
    list_at(model_json::normalized(model_json::design_json(d, ids)), edit::list_key(k))
}

proof fn lemma_list(d: DesignV, ids: bool, k: int)
    requires
        0 <= k < 7,
    ensures
        edit::same_items(list_of(d, ids, k), edit::lists_of(d, false)[k]),
{
    edit::lemma_normalized(d, ids);
    edit::lemma_head_keys(d);
    edit::lemma_stripped(d, k);
    let s = edit::stripped(d, ids);
    edit::lemma_deck(
        model_json::design_head(d),
        s,
        model_json::design_tail(d),
        k,
        s[k],
    );
    assert(list_of(d, ids, k) == s[k]);
}

proof fn lemma_no_list(lists: Seq<Seq<JsonV>>, q: Seq<char>)
    requires
        edit::plain_key(q),
    ensures
        look(Seq::new(7, |k: int| (edit::list_key(k), JsonV::Arr(lists[k]))), q) is None,
{
    let m = Seq::new(7, |k: int| (edit::list_key(k), JsonV::Arr(lists[k])));
    order_map::lemma_seek(m, q, 0);
    let i = order_map::seek(m, q, 0);
    if i < 7 {
        assert(m[i].0 == edit::list_key(i));
    }
}

/// What is found in the head of the JSON form of a design.
#[verifier::spinoff_prover]
#[verifier::rlimit(40)]
proof fn lemma_head(d: DesignV, q: Seq<char>)
    ensures
        look(model_json::design_head(d), q) == (if q == "title"@ {
            Some(JsonV::Str(d.title))
        } else if q == "paper"@ {
            Some(JsonV::Str(d.paper))
        } else if q == "rev"@ && d.rev.len() > 0 {
            Some(JsonV::Str(d.rev))
        } else if q == "company"@ && d.company.len() > 0 {
            Some(JsonV::Str(d.company))
        } else if q == "date"@ && d.date.len() > 0 {
            Some(JsonV::Str(d.date))
        } else if q == "comments"@ && d.comments.len() > 0 {
            Some(JsonV::Arr(model_json::text_items(d.comments)))
        } else {
            None
        }),
{
    let a0: Entries = seq![("title"@, JsonV::Str(d.title)), ("paper"@, JsonV::Str(d.paper))];
    let a1 = a0 + model_json::given_text("rev"@, d.rev);
    let a2 = a1 + model_json::given_text("company"@, d.company);
    let a3 = a2 + model_json::given_text("date"@, d.date);
    lemma_two("title"@, JsonV::Str(d.title), "paper"@, JsonV::Str(d.paper), q);
    lemma_given(a0, d.rev.len() > 0, "rev"@, JsonV::Str(d.rev), q);
    lemma_given(a1, d.company.len() > 0, "company"@, JsonV::Str(d.company), q);
    lemma_given(a2, d.date.len() > 0, "date"@, JsonV::Str(d.date), q);
    lemma_given(
        a3,
        d.comments.len() > 0,
        "comments"@,
        JsonV::Arr(model_json::text_items(d.comments)),
        q,
    );
}

proof fn lemma_frame_key(d: DesignV, ids: bool, i: int)
    requires
        0 <= i < 6,
    ensures
        look(model_json::normalized(model_json::design_json(d, ids)), patching::title_key(i)) == look(
            model_json::design_head(d),
            patching::title_key(i),
        ),
{
    let q = patching::title_key(i);
    edit::lemma_normalized(d, ids);
    patching::lemma_title_keys();
    let h = model_json::design_head(d);
    let s = edit::stripped(d, ids);
    let l = Seq::new(7, |k: int| (edit::list_key(k), JsonV::Arr(s[k])));
    let t = model_json::design_tail(d);
    assert(edit::plain_key(q)) by {
        assert forall|j: int| 0 <= j < 7 implies q != #[trigger] edit::list_key(j) by {
            assert(patching::title_key(i) != edit::list_key(j));
        }
    }
    lemma_no_list(s, q);
    lemma_both(h, l, q);
    let v = JsonV::Arr(
        model_json::text_items(
            names::distinct(
                model_json::node_tags(d.extra_nodes),
                d.extra_nodes.len() as int,
            ),
        ),
    );
    lemma_given(h + l, d.extra_nodes.len() > 0, "_preserved"@, v, q);
    assert(q != "_preserved"@) by {
        reveal_strlit("_preserved");
        reveal_strlit("title");
        reveal_strlit("rev");
        reveal_strlit("date");
        reveal_strlit("company");
        reveal_strlit("comments");
        reveal_strlit("paper");
        assert("_preserved"@.len() == 10);
        assert(q.len() < 10);
    }
}

proof fn lemma_frame(d: DesignV, ids: bool)
    ensures
        ({
            let e = model_json::design_frame(
                model_json::normalized(model_json::design_json(d, ids)),
                None,
            );
            &&& e.title == d.title
            &&& e.paper == d.paper
            &&& e.rev == d.rev
            &&& e.company == d.company
            &&& e.date == d.date
            &&& e.comments == d.comments
        }),
{
    patching::lemma_title_keys();
    let o = model_json::normalized(model_json::design_json(d, ids));
    let e = model_json::design_frame(o, None);
    assert forall|i: int| 0 <= i < 6 implies look(o, #[trigger] patching::title_key(i)) == look(
        model_json::design_head(d),
        patching::title_key(i),
    ) by {
        lemma_frame_key(d, ids, i);
    }
    assert(patching::title_key(0) == "title"@ && patching::title_key(1) == "rev"@
        && patching::title_key(2) == "date"@ && patching::title_key(3) == "company"@
        && patching::title_key(4) == "comments"@ && patching::title_key(5) == "paper"@);
    lemma_head(d, "title"@);
    lemma_head(d, "paper"@);
    lemma_head(d, "rev"@);
    lemma_head(d, "company"@);
    lemma_head(d, "date"@);
    lemma_head(d, "comments"@);
    assert(e.rev =~= d.rev);
    assert(e.company =~= d.company);
    assert(e.date =~= d.date);
    assert(model_json::comments_from(model_json::text_items(d.comments)) =~= d.comments);
    assert(e.comments =~= d.comments);
}

proof fn lemma_placed(d: DesignV, ids: bool)
    requires
        plain_design(d),
    ensures
        ({
            let e = model_json::design_from(model_json::design_json(d, ids), None);
            &&& e.wires == d.wires
            &&& e.nc == d.nc
            &&& e.rects == Seq::new(
                d.rects.len(),
                |i: int| RectV { uuid: Seq::empty(), ..d.rects[i] },
            )
            &&& e.texts == Seq::new(
                d.texts.len(),
                |i: int| TextV { uuid: Seq::empty(), ..d.texts[i] },
            )
        }),
{
    let e = model_json::design_from(model_json::design_json(d, ids), None);
    lemma_list(d, ids, 2);
    let w = list_of(d, ids, 2);
    assert forall|i: int| 0 <= i < d.wires.len() implies #[trigger] w[i] == model_json::path_json(
        d.wires[i],
    ) by {
        assert(edit::same_entries(w[i], edit::lists_of(d, false)[2][i]));
    }
    lemma_wires(w, d.wires, w.len() as int);
    assert(d.wires.take(w.len() as int) =~= d.wires);
    lemma_list(d, ids, 4);
    let n = list_of(d, ids, 4);
    assert forall|i: int| 0 <= i < d.nc.len() implies model_json::points_from(n)[i] == d.nc[i] by {
        assert(edit::same_entries(n[i], edit::lists_of(d, false)[4][i]));
        assert(n[i] == model_json::point_json(d.nc[i]));
        assert(fine(d.nc[i]));
        lemma_point(d.nc[i], Seq::empty());
    }
    assert(e.nc =~= d.nc);
    lemma_list(d, ids, 6);
    let r = list_of(d, ids, 6);
    assert forall|i: int| 0 <= i < d.rects.len() implies model_json::rect_from(r[i]) == (RectV {
        uuid: Seq::empty(),
        ..d.rects[i]
    }) by {
        assert(edit::same_entries(r[i], edit::lists_of(d, false)[6][i]));
        lemma_same(r[i], model_json::rect_json(d.rects[i]));
        assert(fine(d.rects[i].start));
        a_frame_is_read_back(d.rects[i]);
    }
    assert(e.rects =~= Seq::new(
        d.rects.len(),
        |i: int| RectV { uuid: Seq::empty(), ..d.rects[i] },
    ));
    lemma_list(d, ids, 5);
    let t = list_of(d, ids, 5);
    assert forall|i: int| 0 <= i < d.texts.len() implies model_json::text_from(t[i]) == (TextV {
        uuid: Seq::empty(),
        ..d.texts[i]
    }) by {
        assert(edit::same_entries(t[i], edit::lists_of(d, false)[5][i]));
        lemma_same(t[i], model_json::text_json(d.texts[i]));
        assert(plain_note(d.texts[i]));
        a_text_is_read_back(d.texts[i]);
    }
    assert(e.texts =~= Seq::new(
        d.texts.len(),
        |i: int| TextV { uuid: Seq::empty(), ..d.texts[i] },
    ));
}

/// A design that is read from its JSON form, tagged or plain, shows what it showed.
#[verifier::spinoff_prover]
#[verifier::rlimit(40)]
pub proof fn a_design_is_read_back_from_json(d: DesignV, ids: bool)
    requires
        plain_design(d),
    ensures
        shows(model_json::design_from(model_json::design_json(d, ids), None), d),
{
    let e = model_json::design_from(model_json::design_json(d, ids), None);
    lemma_frame(d, ids);
    lemma_placed(d, ids);
    lemma_list(d, ids, 0);
    let p = list_of(d, ids, 0);
    assert forall|i: int| 0 <= i < d.parts.len() implies model_json::part_from(p[i], None) == (
    PartV { uuid: Seq::empty(), ..d.parts[i] }) by {
        assert(edit::same_entries(p[i], edit::lists_of(d, false)[0][i]));
        lemma_same(p[i], model_json::part_json(d.parts[i]));
        assert(plain_part(d.parts[i]));
        a_part_is_read_back(d.parts[i]);
    }
    assert(e.parts =~= Seq::new(
        d.parts.len(),
        |i: int| PartV { uuid: Seq::empty(), ..d.parts[i] },
    ));
    lemma_list(d, ids, 1);
    let w = list_of(d, ids, 1);
    assert forall|i: int| 0 <= i < d.power.len() implies model_json::power_from(w[i], None)
        == bare_power(d.power[i]) by {
        assert(edit::same_entries(w[i], edit::lists_of(d, false)[1][i]));
        lemma_same(w[i], model_json::power_json(d.power[i]));
        assert(plain_power(d.power[i]));
        a_power_symbol_is_read_back(d.power[i]);
    }
    assert(e.power =~= Seq::new(d.power.len(), |i: int| bare_power(d.power[i])));
    lemma_list(d, ids, 3);
    let l = list_of(d, ids, 3);
    assert forall|i: int| 0 <= i < d.labels.len() implies model_json::label_from(l[i]) == (LabelV {
        uuid: Seq::empty(),
        justify: Seq::empty(),
        ..d.labels[i]
    }) by {
        assert(edit::same_entries(l[i], edit::lists_of(d, false)[3][i]));
        lemma_same(l[i], model_json::label_json(d.labels[i]));
        assert(plain_label(d.labels[i]));
        a_label_is_read_back(d.labels[i]);
    }
    assert(e.labels =~= Seq::new(
        d.labels.len(),
        |i: int| LabelV { uuid: Seq::empty(), justify: Seq::empty(), ..d.labels[i] },
    ));
}

} // verus!
