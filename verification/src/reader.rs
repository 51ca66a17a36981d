//! Netlist designs read from JSON: the parts with their pins, and the layout trees.
use crate::circuit::Circuit;
use crate::emit;
use crate::engine::PartSpec;
use crate::json;
use crate::json::{Json, JsonV};
use crate::lint::{Block, BlockV};
use crate::number;
use crate::number::read_number;
use crate::order_map;
use crate::text;
use crate::tree;
use crate::tree::{Style, StyleV, Tree, TreeV, DEFAULT_GAP, DEFAULT_WRAP};
use vstd::prelude::*;

verus! {

// ---------------------------------------------------------------- scalars
/// A value as a text.
pub open spec fn shown(v: JsonV) -> Seq<char> {
    match v {
        JsonV::Str(s) => s,
        JsonV::Bool(b) => if b {
            "True"@
        } else {
            "False"@
        },
        JsonV::Null => "None"@,
        _ => json::text_of(v),
    }
}

/// A value as a text: a text as it is, anything else as it is written.
pub fn show(v: &Json) -> (r: String)
    requires
        json::ok(v@),
    ensures
        r@ == shown(v@),
{
    match v {
        Json::Str(s) => s.clone(),
        Json::Bool(b) => if *b {
            "True".to_owned()
        } else {
            "False".to_owned()
        },
        Json::Null => "None".to_owned(),
        _ => v.to_text(),
    }
}

/// A number in millionths: also one that a text stands for, and a truth value.
pub open spec fn number_in(v: Option<JsonV>) -> Option<int> {
    match v {
        Some(JsonV::Str(s)) => number::number_of(s),
        Some(JsonV::Bool(b)) => Some(
            if b {
                1_000_000
            } else {
                0
            },
        ),
        Some(x) => json::num_in(x),
        None => None,
    }
}

pub fn number_at(j: &Json, k: &str) -> (r: Option<i64>)
    requires
        json::ok(j@),
    ensures
        match r {
            Some(n) => number_in(json::field(j@, k@)) == Some(n as int) && -9_000_000_000_000_000
                <= n <= 9_000_000_000_000_000,
            None => number_in(json::field(j@, k@)) is None,
        },
{
    match j.get(k) {
        Some(v) => match v {
            Json::Str(s) => read_number(s.as_str()),
            Json::Bool(b) => if *b {
                Some(1_000_000)
            } else {
                Some(0)
            },
            _ => v.as_num(),
        },
        None => None,
    }
}

/// The whole part of a number in millionths.
pub open spec fn whole(n: int) -> int {
    let q = if n < 0 {
        -(-n / 1_000_000)
    } else {
        n / 1_000_000
    };
    if q > i32::MAX {
        i32::MAX as int
    } else if q < i32::MIN {
        i32::MIN as int
    } else {
        q
    }
}

pub open spec fn whole_or(v: Option<JsonV>, other: int) -> int {
    match number_in(v) {
        Some(n) => whole(n),
        None => other,
    }
}

pub fn whole_at(j: &Json, k: &str, other: i32) -> (r: i32)
    requires
        json::ok(j@),
    ensures
        r == whole_or(json::field(j@, k@), other as int),
{
    match number_at(j, k) {
        Some(n) => {
            let a: i64 = if n < 0 {
                -n
            } else {
                n
            };
            let m: i64 = a / 1_000_000;
            let q: i64 = if n < 0 {
                -m
            } else {
                m
            };
            if q > i32::MAX as i64 {
                i32::MAX
            } else if q < i32::MIN as i64 {
                i32::MIN
            } else {
                q as i32
            }
        },
        None => other,
    }
}

/// A length that is given in grid steps.
pub open spec fn length_or(v: Option<JsonV>, other: int) -> int {
    match number_in(v) {
        Some(n) => n * 127 / 1000,
        None => other,
    }
}

pub fn length_at(j: &Json, k: &str, other: i64) -> (r: i64)
    requires
        json::ok(j@),
    ensures
        r == length_or(json::field(j@, k@), other as int),
{
    match number_at(j, k) {
        Some(n) => if n >= 0 {
            n * 127 / 1000
        } else {
            -((-n * 127 + 999) / 1000)
        },
        None => other,
    }
}

pub open spec fn text_or(v: Option<JsonV>, other: Seq<char>) -> Seq<char> {
    match v {
        Some(JsonV::Str(s)) => s,
        _ => other,
    }
}

pub fn text_at(j: &Json, k: &str, other: &str) -> (r: String)
    ensures
        r@ == text_or(json::field(j@, k@), other@),
{
    match j.get(k) {
        Some(v) => match v.as_str() {
            Some(s) => s.clone(),
            None => other.to_owned(),
        },
        None => other.to_owned(),
    }
}

pub open spec fn shown_at(j: JsonV, k: Seq<char>) -> Option<Seq<char>> {
    match json::field(j, k) {
        Some(v) => Some(shown(v)),
        None => None,
    }
}

pub fn show_at(j: &Json, k: &str) -> (r: Option<String>)
    requires
        json::ok(j@),
    ensures
        tree::text_v(r) == shown_at(j@, k@),
{
    match j.get(k) {
        Some(v) => Some(show(v)),
        None => None,
    }
}

/// Whether a value says something: neither missing nor null, false, zero or empty.
pub open spec fn says(v: Option<JsonV>) -> bool {
    match v {
        None => false,
        Some(JsonV::Null) => false,
        Some(JsonV::Bool(b)) => b,
        Some(JsonV::Int(i)) => i != 0,
        Some(JsonV::Dec(d)) => d != 0,
        Some(JsonV::Str(s)) => s.len() > 0,
        Some(JsonV::Arr(a)) => a.len() > 0,
        Some(JsonV::Obj(o)) => o.len() > 0,
    }
}

pub fn truthy(v: Option<&Json>) -> (r: bool)
    ensures
        r == says(json::found_v(v)),
{
    match v {
        None => false,
        Some(j) => match j {
            Json::Null => false,
            Json::Bool(b) => *b,
            Json::Int(i) => *i != 0,
            Json::Dec(d) => *d != 0,
            Json::Str(s) => s.as_str().unicode_len() > 0,
            Json::Arr(a) => {
                proof {
                    json::lemma_arr_view(*a);
                }
                a.len() > 0
            },
            Json::Obj(o) => {
                proof {
                    json::lemma_obj_view(*o);
                }
                o.len() > 0
            },
        },
    }
}

// ---------------------------------------------------------------- layout trees
pub open spec fn style_in(j: JsonV) -> StyleV {
    StyleV {
        part: shown_at(j, "part"@),
        unit: whole_or(json::field(j, "unit"@), 1),
        rot: if json::field(j, "rot"@) is Some {
            Some(whole_or(json::field(j, "rot"@), 0))
        } else {
            None
        },
        mirror: if json::field(j, "mirror"@) is Some {
            Some(text_or(json::field(j, "mirror"@), ""@))
        } else {
            None
        },
        gap: length_or(json::field(j, "gap"@), DEFAULT_GAP as int),
        wrap: length_or(json::field(j, "wrap"@), DEFAULT_WRAP as int),
        align: text_or(json::field(j, "align"@), "center"@),
        wrapped: says(json::field(j, "_wrapped"@)),
    }
}

/// The tree of a node and what it holds.
pub open spec fn tree_in(j: JsonV) -> TreeV
    decreases j, 1nat,
{
    TreeV {
        style: style_in(j),
        is_row: json::field(j, "row"@) is Some,
        row: if json::field(j, "row"@) is Some {
            proof {
                lemma_smaller(j, "row"@);
            }
            trees_in(json::field(j, "row"@)->0)
        } else {
            Seq::empty()
        },
        is_col: json::field(j, "col"@) is Some,
        col: if json::field(j, "col"@) is Some {
            proof {
                lemma_smaller(j, "col"@);
            }
            trees_in(json::field(j, "col"@)->0)
        } else {
            Seq::empty()
        },
    }
}

pub open spec fn trees_in(j: JsonV) -> Seq<TreeV>
    decreases j, 0nat,
{
    match j {
        JsonV::Arr(v) => Seq::new(
            v.len(),
            |i: int|
                if 0 <= i < v.len() {
                    tree_in(v[i])
                } else {
                    TreeV::nothing()
                },
        ),
        _ => Seq::empty(),
    }
}

pub proof fn lemma_smaller(j: JsonV, k: Seq<char>)
    requires
        json::field(j, k) is Some,
    ensures
        decreases_to!(j => json::field(j, k)->0),
{
    let v = json::entries_of(j);
    let i = order_map::seek(v, k, 0);
    order_map::lemma_seek(v, k, 0);
    assert(j is Obj);
    assert(decreases_to!(j => j->Obj_0[i].1));
}

fn read_style(j: &Json) -> (r: Style)
    requires
        json::ok(j@),
    ensures
        r@ == style_in(j@),
{
    let rot: Option<i32> = if j.get("rot").is_some() {
        Some(whole_at(j, "rot", 0))
    } else {
        None
    };
    let mirror: Option<String> = if j.get("mirror").is_some() {
        Some(text_at(j, "mirror", ""))
    } else {
        None
    };
    Style {
        part: show_at(j, "part"),
        unit: whole_at(j, "unit", 1),
        rot,
        mirror,
        gap: length_at(j, "gap", DEFAULT_GAP),
        wrap: length_at(j, "wrap", DEFAULT_WRAP),
        align: text_at(j, "align", "center"),
        wrapped: truthy(j.get("_wrapped")),
    }
}

/// Reads a node of a layout tree.
pub fn read_tree(j: &Json) -> (r: Tree)
    requires
        json::ok(j@),
    ensures
        r@ == tree_in(j@),
    decreases j@, 1nat,
{
    let style = read_style(j);
    let (is_row, row): (bool, Vec<Tree>) = match j.get("row") {
        Some(v) => {
            proof {
                lemma_smaller(j@, "row"@);
            }
            (true, read_trees(v))
        },
        None => (false, Vec::new()),
    };
    let (is_col, col): (bool, Vec<Tree>) = match j.get("col") {
        Some(v) => {
            proof {
                lemma_smaller(j@, "col"@);
            }
            (true, read_trees(v))
        },
        None => (false, Vec::new()),
    };
    let r = Tree { style, is_row, row, is_col, col };
    assert(r@.row =~= tree::trees_v(r.row@));
    assert(r@.col =~= tree::trees_v(r.col@));
    assert(r@.row =~= tree_in(j@).row);
    assert(r@.col =~= tree_in(j@).col);
    assert(r@ =~= tree_in(j@));
    r
}

fn read_trees(j: &Json) -> (r: Vec<Tree>)
    requires
        json::ok(j@),
    ensures
        tree::trees_v(r@) == trees_in(j@),
    decreases j@, 0nat,
{
    let mut r: Vec<Tree> = Vec::new();
    match j {
        Json::Arr(v) => {
            let ghost vv = json::values_v(v@);
            proof {
                json::lemma_arr_view(*v);
                json::lemma_ok_arr(vv);
            }
            let mut i: usize = 0;
            while i < v.len()
                invariant
                    i <= v@.len(),
                    vv == json::values_v(v@),
                    j@ == JsonV::Arr(vv),
                    json::all_ok(vv),
                    r@.len() == i,
                    forall|k: int| 0 <= k < i ==> #[trigger] r@[k]@ == tree_in(vv[k]),
                decreases v@.len() - i,
            {
                assert(vv[i as int] == v@[i as int]@);
                assert(json::ok(vv[i as int]));
                assert(decreases_to!(j@ => j@->Arr_0[i as int]));
                let t = read_tree(&v[i]);
                r.push(t);
                i += 1;
            }
            assert(tree::trees_v(r@) =~= trees_in(j@));
        },
        _ => {
            assert(!(j@ is Arr));
            assert(tree::trees_v(r@) =~= Seq::empty());
        },
    }
    r
}

// ---------------------------------------------------------------- blocks
pub open spec fn block_in(j: JsonV) -> BlockV {
    BlockV {
        title: text_or(json::field(j, "title"@), ""@),
        note: if says(json::field(j, "note"@)) {
            shown_at(j, "note"@)
        } else {
            None
        },
        has_tree: json::field(j, "tree"@) is Some,
        tree: match json::field(j, "tree"@) {
            Some(t) => tree_in(t),
            None => tree_in(JsonV::Null),
        },
    }
}

/// Reads a block of a layout.
pub fn read_block(j: &Json) -> (r: Block)
    requires
        json::ok(j@),
    ensures
        r@ == block_in(j@),
{
    let note: Option<String> = if truthy(j.get("note")) {
        show_at(j, "note")
    } else {
        None
    };
    let (has_tree, t): (bool, Tree) = match j.get("tree") {
        Some(t) => (true, read_tree(t)),
        None => (false, read_tree(&Json::Null)),
    };
    Block { title: text_at(j, "title", ""), note, has_tree, tree: t }
}

// ---------------------------------------------------------------- parts
pub open spec fn pins_v(v: Seq<(String, Option<String>)>) -> Seq<(Seq<char>, Option<Seq<char>>)> {
    Seq::new(v.len(), |i: int| (v[i].0@, tree::text_v(v[i].1)))
}

/// The pins of a part: what is null is not connected.
pub open spec fn pins_in(j: JsonV) -> Seq<(Seq<char>, Option<Seq<char>>)> {
    match json::field(j, "pins"@) {
        Some(p) => {
            let e = json::entries_of(p);
            Seq::new(
                e.len(),
                |i: int|
                    (
                        e[i].0,
                        if e[i].1 is Null {
                            None
                        } else {
                            Some(shown(e[i].1))
                        },
                    ),
            )
        },
        None => Seq::empty(),
    }
}

pub open spec fn fields_in(j: JsonV) -> Seq<(Seq<char>, Seq<char>)> {
    match json::field(j, "fields"@) {
        Some(p) => {
            let e = json::entries_of(p);
            Seq::new(e.len(), |i: int| (e[i].0, shown(e[i].1)))
        },
        None => Seq::empty(),
    }
}

/// Whether a part was read from a value.
pub open spec fn part_reads(p: PartSpec, j: JsonV) -> bool {
    &&& tree::text_v(p.id) == shown_at(j, "id"@)
    &&& tree::text_v(p.lib) == shown_at(j, "lib"@)
    &&& p.unit == (match json::field(j, "unit"@) {
        Some(JsonV::Int(i)) => i as i32,
        _ => 1,
    })
    &&& tree::text_v(p.pins_default) == shown_at(j, "pins_default"@)
    &&& pins_v(p.pins@) == pins_in(j)
    &&& tree::text_v(p.value) == shown_at(j, "value"@)
    &&& tree::text_v(p.footprint) == shown_at(j, "footprint"@)
    &&& emit::pairs_v(p.fields@) == fields_in(j)
}

fn read_unit(j: &Json) -> (r: i32)
    ensures
        r == (match json::field(j@, "unit"@) {
            Some(JsonV::Int(i)) => i as i32,
            _ => 1,
        }),
{
    match j.get("unit") {
        Some(v) => match v {
            Json::Int(i) => #[verifier::truncate] (*i as i32),
            _ => 1,
        },
        None => 1,
    }
}

fn read_pins(j: &Json) -> (r: Vec<(String, Option<String>)>)
    requires
        json::ok(j@),
    ensures
        pins_v(r@) == pins_in(j@),
{
    let mut r: Vec<(String, Option<String>)> = Vec::new();
    assert(pins_v(r@) =~= Seq::empty());
    if let Some(p) = j.get("pins") {
        if let Some(e) = p.as_object() {
            let ghost ev = json::entries_of(p@);
            proof {
                json::lemma_ok_obj(ev);
            }
            assert(json::entries_v(e@) == ev);
            let mut i: usize = 0;
            while i < e.len()
                invariant
                    i <= e@.len(),
                    json::entries_v(e@) == ev,
                    json::fields_ok(ev),
                    r@.len() == i,
                    forall|k: int|
                        0 <= k < i ==> (#[trigger] r@[k]).0@ == ev[k].0 && tree::text_v(r@[k].1)
                            == (if ev[k].1 is Null {
                            None
                        } else {
                            Some(shown(ev[k].1))
                        }),
                decreases e@.len() - i,
            {
                assert(ev[i as int] == (e@[i as int].0@, e@[i as int].1@));
                assert(json::ok(ev[i as int].1));
                let net: Option<String> = match &e[i].1 {
                    Json::Null => None,
                    v => Some(show(v)),
                };
                r.push((e[i].0.clone(), net));
                i += 1;
            }
        }
        assert(pins_v(r@) =~= pins_in(j@));
    }
    r
}

fn read_fields(j: &Json) -> (r: Vec<(String, String)>)
    requires
        json::ok(j@),
    ensures
        emit::pairs_v(r@) == fields_in(j@),
{
    let mut r: Vec<(String, String)> = Vec::new();
    assert(emit::pairs_v(r@) =~= Seq::empty());
    if let Some(p) = j.get("fields") {
        if let Some(e) = p.as_object() {
            let ghost ev = json::entries_of(p@);
            proof {
                json::lemma_ok_obj(ev);
            }
            assert(json::entries_v(e@) == ev);
            let mut i: usize = 0;
            while i < e.len()
                invariant
                    i <= e@.len(),
                    json::entries_v(e@) == ev,
                    json::fields_ok(ev),
                    r@.len() == i,
                    forall|k: int|
                        0 <= k < i ==> (#[trigger] r@[k]).0@ == ev[k].0 && r@[k].1@ == shown(
                            ev[k].1,
                        ),
                decreases e@.len() - i,
            {
                assert(ev[i as int] == (e@[i as int].0@, e@[i as int].1@));
                assert(json::ok(ev[i as int].1));
                r.push((e[i].0.clone(), show(&e[i].1)));
                i += 1;
            }
        }
        assert(emit::pairs_v(r@) =~= fields_in(j@));
    }
    r
}

/// Reads a part.
pub fn read_part(j: &Json) -> (r: PartSpec)
    requires
        json::ok(j@),
    ensures
        part_reads(r, j@),
{
    PartSpec {
        id: show_at(j, "id"),
        lib: show_at(j, "lib"),
        unit: read_unit(j),
        pins_default: show_at(j, "pins_default"),
        pins: read_pins(j),
        value: show_at(j, "value"),
        footprint: show_at(j, "footprint"),
        fields: read_fields(j),
    }
}

// ---------------------------------------------------------------- designs
/// The items of a list of an object.
pub open spec fn items_at(j: JsonV, k: Seq<char>) -> Seq<JsonV> {
    match json::field(j, k) {
        Some(v) => json::items_of(v),
        None => Seq::empty(),
    }
}

pub open spec fn shown_all(v: Seq<JsonV>) -> Seq<Seq<char>> {
    Seq::new(v.len(), |i: int| shown(v[i]))
}

/// Those of the first `n` values that say something, as texts.
pub open spec fn said(v: Seq<JsonV>, n: int) -> Seq<Seq<char>>
    decreases n,
{
    if n <= 0 {
        Seq::empty()
    } else if says(Some(v[n - 1])) {
        said(v, n - 1).push(shown(v[n - 1]))
    } else {
        said(v, n - 1)
    }
}

/// Whether a circuit was read from a design.
pub open spec fn circuit_reads(c: Circuit, d: JsonV) -> bool {
    &&& c.parts@.len() == items_at(d, "parts"@).len()
    &&& forall|i: int|
        0 <= i < c.parts@.len() ==> part_reads(#[trigger] c.parts@[i], items_at(d, "parts"@)[i])
    &&& text::views(c.power@) == shown_all(items_at(d, "power"@))
    &&& text::views(c.flags@) == shown_all(items_at(d, "flags"@))
    &&& c.layout@.len() == items_at(d, "layout"@).len()
    &&& forall|i: int|
        0 <= i < c.layout@.len() ==> #[trigger] c.layout@[i]@ == block_in(
            items_at(d, "layout"@)[i],
        )
    &&& text::views(c.notes@) == said(
        items_at(d, "notes"@),
        items_at(d, "notes"@).len() as int,
    )
}

fn list_at<'a>(d: &'a Json, k: &str, none: &'a Vec<Json>) -> (r: &'a Vec<Json>)
    requires
        json::ok(d@),
        none@.len() == 0,
    ensures
        json::values_v(r@) == items_at(d@, k@),
        json::all_ok(json::values_v(r@)),
{
    assert(json::values_v(none@) =~= Seq::empty());
    match d.get(k) {
        Some(v) => match v.as_array() {
            Some(a) => {
                proof {
                    json::lemma_ok_arr(json::values_v(a@));
                }
                a
            },
            None => none,
        },
        None => none,
    }
}

fn show_all(v: &Vec<Json>) -> (r: Vec<String>)
    requires
        json::all_ok(json::values_v(v@)),
    ensures
        text::views(r@) == shown_all(json::values_v(v@)),
{
    let ghost vv = json::values_v(v@);
    let mut r: Vec<String> = Vec::new();
    let mut i: usize = 0;
    while i < v.len()
        invariant
            i <= v@.len(),
            vv == json::values_v(v@),
            json::all_ok(vv),
            r@.len() == i,
            forall|k: int| 0 <= k < i ==> #[trigger] r@[k]@ == shown(vv[k]),
        decreases v@.len() - i,
    {
        assert(vv[i as int] == v@[i as int]@);
        assert(json::ok(vv[i as int]));
        r.push(show(&v[i]));
        i += 1;
    }
    assert(text::views(r@) =~= shown_all(vv));
    r
}

fn say_all(v: &Vec<Json>) -> (r: Vec<String>)
    requires
        json::all_ok(json::values_v(v@)),
    ensures
        text::views(r@) == said(json::values_v(v@), v@.len() as int),
{
    let ghost vv = json::values_v(v@);
    let mut r: Vec<String> = Vec::new();
    let mut i: usize = 0;
    assert(text::views(r@) =~= Seq::empty());
    while i < v.len()
        invariant
            i <= v@.len(),
            vv == json::values_v(v@),
            json::all_ok(vv),
            text::views(r@) == said(vv, i as int),
        decreases v@.len() - i,
    {
        let ghost rv = text::views(r@);
        assert(vv[i as int] == v@[i as int]@);
        assert(json::ok(vv[i as int]));
        if truthy(Some(&v[i])) {
            let t = show(&v[i]);
            let ghost tv = t@;
            r.push(t);
            assert(text::views(r@) =~= rv.push(tv));
        }
        i += 1;
    }
    r
}

/// Reads a netlist design.
pub fn read_circuit(d: &Json) -> (r: Circuit)
    requires
        json::ok(d@),
    ensures
        circuit_reads(r, d@),
{
    let none: Vec<Json> = Vec::new();
    let listed = list_at(d, "parts", &none);
    let ghost pv = json::values_v(listed@);
    let mut parts: Vec<PartSpec> = Vec::new();
    let mut i: usize = 0;
    while i < listed.len()
        invariant
            i <= listed@.len(),
            pv == json::values_v(listed@),
            json::all_ok(pv),
            parts@.len() == i,
            forall|k: int| 0 <= k < i ==> part_reads(#[trigger] parts@[k], pv[k]),
        decreases listed@.len() - i,
    {
        assert(pv[i as int] == listed@[i as int]@);
        assert(json::ok(pv[i as int]));
        let p = read_part(&listed[i]);
        parts.push(p);
        i += 1;
    }
    let blocks = list_at(d, "layout", &none);
    let ghost bv = json::values_v(blocks@);
    let mut layout: Vec<Block> = Vec::new();
    i = 0;
    while i < blocks.len()
        invariant
            i <= blocks@.len(),
            bv == json::values_v(blocks@),
            json::all_ok(bv),
            layout@.len() == i,
            forall|k: int| 0 <= k < i ==> #[trigger] layout@[k]@ == block_in(bv[k]),
        decreases blocks@.len() - i,
    {
        assert(bv[i as int] == blocks@[i as int]@);
        assert(json::ok(bv[i as int]));
        let b = read_block(&blocks[i]);
        layout.push(b);
        i += 1;
    }
    let power = show_all(list_at(d, "power", &none));
    let flags = show_all(list_at(d, "flags", &none));
    let notes = say_all(list_at(d, "notes", &none));
    Circuit { parts, power, flags, layout, notes }
}

} // verus!
