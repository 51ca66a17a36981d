//! The document of a sheet, and the readability findings about it.
use crate::emit;
use crate::emit::{
    fmt_coord, Dir, EmitError, EmitErrorV, Gallery, Instance, InstanceV, Mark, MarkV, PinLabel,
    PinLabelV, SchematicWriter, SheetRect, SheetRectV, SheetText, SheetTextV, Wire, WireV, WriterV,
};
use crate::flex::cut_wide;
use crate::geom::{BBox, Pt};
use crate::ids;
use crate::ids::stable_uuid;
use crate::names;
use crate::names::sort_names;
use crate::order;
use crate::orient;
use crate::orient::cut_off;
use crate::retract;
use crate::retract::order_keys;
use crate::text;
use crate::text::{replace_all, same, split, starts_with, Line};
use vstd::prelude::*;

verus! {

/// A text as it stands between quotes: backslashes first, then quotes.
pub open spec fn escaped(s: Seq<char>) -> Seq<char> {
    text::replaced(text::replaced(s, "\\"@, "\\\\"@), "\""@, "\\\""@)
}

/// Escapes a text for a quoted atom.
pub fn escape_sexpr_string(s: &str) -> (r: String)
    ensures
        r@ == escaped(s@),
{
    proof {
        reveal_strlit("\\");
        reveal_strlit("\"");
    }
    let a = replace_all(s, "\\", "\\\\");
    replace_all(a.as_str(), "\"", "\\\"")
}

// ---------------------------------------------------------------- one item
pub open spec fn turn_of(d: Dir) -> Seq<char> {
    match d {
        Dir::East => "0"@,
        Dir::West => "180"@,
        Dir::North => "90"@,
        Dir::South => "270"@,
    }
}

pub open spec fn side_of(d: Dir) -> Seq<char> {
    match d {
        Dir::East => "left"@,
        Dir::West => "right"@,
        Dir::North => "left"@,
        Dir::South => "right"@,
    }
}

pub open spec fn label_text(l: PinLabelV) -> Seq<char> {
    "\t(label \""@ + escaped(l.net) + "\"\n\t\t(at "@ + emit::coord(l.at.x) + " "@ + emit::coord(
        l.at.y,
    ) + " "@ + turn_of(l.dir) + ")\n\t\t(effects (font (size 1.27 1.27)) (justify "@ + side_of(
        l.dir,
    ) + " bottom))\n\t\t(uuid \""@ + ids::stable("label"@, l.key) + "\")\n\t)\n"@
}

/// A label, turned so that its text reads away from the symbol.
pub fn render_label(l: &PinLabel) -> (r: String)
    ensures
        r@ == label_text(l@),
{
    let (turn, side) = match l.dir {
        Dir::East => ("0", "left"),
        Dir::West => ("180", "right"),
        Dir::North => ("90", "left"),
        Dir::South => ("270", "right"),
    };
    Line::of("\t(label \"").add(escape_sexpr_string(l.net.as_str()).as_str()).add(
        "\"\n\t\t(at ",
    ).add(fmt_coord(l.at.x).as_str()).add(" ").add(fmt_coord(l.at.y).as_str()).add(" ").add(
        turn,
    ).add(")\n\t\t(effects (font (size 1.27 1.27)) (justify ").add(side).add(
        " bottom))\n\t\t(uuid \"",
    ).add(stable_uuid("label", l.key.as_str()).as_str()).add("\")\n\t)\n").done()
}

pub open spec fn no_connect_text(m: MarkV) -> Seq<char> {
    "\t(no_connect\n\t\t(at "@ + emit::coord(m.at.x) + " "@ + emit::coord(m.at.y)
        + ")\n\t\t(uuid \""@ + ids::stable("no_connect"@, m.key) + "\")\n\t)\n"@
}

pub fn render_no_connect(m: &Mark) -> (r: String)
    ensures
        r@ == no_connect_text(m@),
{
    Line::of("\t(no_connect\n\t\t(at ").add(fmt_coord(m.at.x).as_str()).add(" ").add(
        fmt_coord(m.at.y).as_str(),
    ).add(")\n\t\t(uuid \"").add(stable_uuid("no_connect", m.key.as_str()).as_str()).add(
        "\")\n\t)\n",
    ).done()
}

pub open spec fn wire_text(w: WireV) -> Seq<char> {
    "\t(wire\n\t\t(pts\n\t\t\t(xy "@ + emit::coord(w.a.x) + " "@ + emit::coord(w.a.y) + ") (xy "@
        + emit::coord(w.b.x) + " "@ + emit::coord(w.b.y)
        + ")\n\t\t)\n\t\t(stroke (width 0) (type default))\n\t\t(uuid \""@ + ids::stable(
        "wire"@,
        w.key,
    ) + "\")\n\t)\n"@
}

fn render_wire(w: &Wire) -> (r: String)
    ensures
        r@ == wire_text(w@),
{
    Line::of("\t(wire\n\t\t(pts\n\t\t\t(xy ").add(fmt_coord(w.a.x).as_str()).add(" ").add(
        fmt_coord(w.a.y).as_str(),
    ).add(") (xy ").add(fmt_coord(w.b.x).as_str()).add(" ").add(fmt_coord(w.b.y).as_str()).add(
        ")\n\t\t)\n\t\t(stroke (width 0) (type default))\n\t\t(uuid \"",
    ).add(stable_uuid("wire", w.key.as_str()).as_str()).add("\")\n\t)\n").done()
}

pub open spec fn junction_text(m: MarkV) -> Seq<char> {
    "\t(junction\n\t\t(at "@ + emit::coord(m.at.x) + " "@ + emit::coord(m.at.y)
        + ")\n\t\t(diameter 0)\n\t\t(color 0 0 0 0)\n\t\t(uuid \""@ + ids::stable(
        "junction"@,
        m.key,
    ) + "\")\n\t)\n"@
}

fn render_junction(m: &Mark) -> (r: String)
    ensures
        r@ == junction_text(m@),
{
    Line::of("\t(junction\n\t\t(at ").add(fmt_coord(m.at.x).as_str()).add(" ").add(
        fmt_coord(m.at.y).as_str(),
    ).add(")\n\t\t(diameter 0)\n\t\t(color 0 0 0 0)\n\t\t(uuid \"").add(
        stable_uuid("junction", m.key.as_str()).as_str(),
    ).add("\")\n\t)\n").done()
}

pub open spec fn text_text(t: SheetTextV) -> Seq<char> {
    "\t(text \""@ + escaped(t.text) + "\"\n\t\t(exclude_from_sim no)\n\t\t(at "@ + emit::coord(
        t.at.x,
    ) + " "@ + emit::coord(t.at.y) + " 0)\n\t\t(effects (font (size "@ + emit::coord(t.size) + " "@
        + emit::coord(t.size) + ")"@ + (if t.bold {
        " bold"@
    } else {
        ""@
    }) + ") (justify left bottom))\n\t\t(uuid \""@ + ids::stable("text"@, t.key) + "\")\n\t)\n"@
}

fn render_text(t: &SheetText) -> (r: String)
    ensures
        r@ == text_text(t@),
{
    let bold = if t.bold { " bold" } else { "" };
    Line::of("\t(text \"").add(escape_sexpr_string(t.text.as_str()).as_str()).add(
        "\"\n\t\t(exclude_from_sim no)\n\t\t(at ",
    ).add(fmt_coord(t.at.x).as_str()).add(" ").add(fmt_coord(t.at.y).as_str()).add(
        " 0)\n\t\t(effects (font (size ",
    ).add(fmt_coord(t.size).as_str()).add(" ").add(fmt_coord(t.size).as_str()).add(")").add(
        bold,
    ).add(") (justify left bottom))\n\t\t(uuid \"").add(
        stable_uuid("text", t.key.as_str()).as_str(),
    ).add("\")\n\t)\n").done()
}

pub open spec fn rect_text(t: SheetRectV) -> Seq<char> {
    "\t(rectangle\n\t\t(start "@ + emit::coord(t.start.x) + " "@ + emit::coord(t.start.y)
        + ")\n\t\t(end "@ + emit::coord(t.end.x) + " "@ + emit::coord(t.end.y)
        + ")\n\t\t(stroke (width 0.1524) (type dash))\n\t\t(fill (type none))\n\t\t(uuid \""@
        + ids::stable("rect"@, t.key) + "\")\n\t)\n"@
}

fn render_rect(t: &SheetRect) -> (r: String)
    ensures
        r@ == rect_text(t@),
{
    Line::of("\t(rectangle\n\t\t(start ").add(fmt_coord(t.start.x).as_str()).add(" ").add(
        fmt_coord(t.start.y).as_str(),
    ).add(")\n\t\t(end ").add(fmt_coord(t.end.x).as_str()).add(" ").add(
        fmt_coord(t.end.y).as_str(),
    ).add(")\n\t\t(stroke (width 0.1524) (type dash))\n\t\t(fill (type none))\n\t\t(uuid \"").add(
        stable_uuid("rect", t.key.as_str()).as_str(),
    ).add("\")\n\t)\n").done()
}

// ---------------------------------------------------------------- symbols
pub open spec fn shown_effects(hidden: bool) -> Seq<char> {
    if hidden {
        "\t\t\t(effects (font (size 1.27 1.27)) (justify left) (hide yes))\n\t\t)\n"@
    } else {
        "\t\t\t(effects (font (size 1.27 1.27)) (justify left))\n\t\t)\n"@
    }
}

/// The first `n` hidden properties.
pub open spec fn props_text(v: Seq<(Seq<char>, Seq<char>)>, at: Pt, n: int) -> Seq<char>
    decreases n,
{
    if n <= 0 {
        ""@
    } else {
        props_text(v, at, n - 1) + "\t\t(property \""@ + escaped(v[n - 1].0) + "\" \""@ + escaped(
            v[n - 1].1,
        ) + "\"\n\t\t\t(at "@ + emit::coord(at.x) + " "@ + emit::coord(at.y)
            + " 0)\n\t\t\t(effects (font (size 1.27 1.27)) (hide yes))\n\t\t)\n"@
    }
}

pub open spec fn instance_uuid(i: InstanceV) -> Seq<char> {
    match i.uuid {
        Some(u) => u,
        None => ids::stable("symbol"@, i.refdes),
    }
}

pub open spec fn instance_head(i: InstanceV) -> Seq<char> {
    "\t(symbol\n\t\t(lib_id \""@ + i.lib_id + "\")\n\t\t(at "@ + emit::coord(i.at.x) + " "@
        + emit::coord(i.at.y) + " "@ + text::numeral(i.angle as int)
        + ")\n\t\t(unit 1)\n\t\t(exclude_from_sim no)\n\t\t(in_bom yes)\n\t\t(on_board yes)\n\t\t(dnp no)\n\t\t(uuid \""@
        + instance_uuid(i) + "\")\n"@
}

/// The reference and the value stand beside the body, one over the other.
pub open spec fn instance_fields(i: InstanceV) -> Seq<char> {
    let x = orient::cut(i.at.x + i.half_w + 127_000);
    "\t\t(property \"Reference\" \""@ + escaped(i.refdes) + "\"\n\t\t\t(at "@ + emit::coord(x) + " "@
        + emit::coord(orient::cut(i.at.y - 127_000)) + " 0)\n"@ + shown_effects(
        text::starts(i.refdes, "#"@),
    ) + "\t\t(property \"Value\" \""@ + escaped(i.value) + "\"\n\t\t\t(at "@ + emit::coord(x) + " "@
        + emit::coord(orient::cut(i.at.y + 127_000)) + " 0)\n"@ + shown_effects(
        i.lib_id == "power:PWR_FLAG"@,
    ) + "\t\t(property \"Footprint\" \"\"\n\t\t\t(at "@ + emit::coord(i.at.x) + " "@ + emit::coord(
        i.at.y,
    ) + " 0)\n\t\t\t(effects (font (size 1.27 1.27)) (hide yes))\n\t\t)\n"@
}

pub open spec fn instance_tail(i: InstanceV, root: Seq<char>) -> Seq<char> {
    "\t\t(instances\n\t\t\t(project \"\"\n\t\t\t\t(path \"/"@ + root
        + "\"\n\t\t\t\t\t(reference \""@ + escaped(i.refdes)
        + "\")\n\t\t\t\t\t(unit 1)\n\t\t\t\t)\n\t\t\t)\n\t\t)\n\n\t)\n"@
}

pub open spec fn instance_text(i: InstanceV, root: Seq<char>) -> Seq<char> {
    instance_head(i) + instance_fields(i) + props_text(i.extra, i.at, i.extra.len() as int)
        + instance_tail(i, root)
}

fn render_props(v: &Vec<(String, String)>, at: Pt) -> (r: String)
    ensures
        r@ == props_text(emit::pairs_v(v@), at, v@.len() as int),
{
    let ghost pv = emit::pairs_v(v@);
    let mut r = "".to_owned();
    let mut i: usize = 0;
    while i < v.len()
        invariant
            i <= v@.len(),
            pv == emit::pairs_v(v@),
            r@ == props_text(pv, at, i as int),
        decreases v@.len() - i,
    {
        assert(pv[i as int] == (v@[i as int].0@, v@[i as int].1@));
        r = Line::of(r.as_str()).add("\t\t(property \"").add(
            escape_sexpr_string(v[i].0.as_str()).as_str(),
        ).add("\" \"").add(escape_sexpr_string(v[i].1.as_str()).as_str()).add("\"\n\t\t\t(at ").add(
            fmt_coord(at.x).as_str(),
        ).add(" ").add(fmt_coord(at.y).as_str()).add(
            " 0)\n\t\t\t(effects (font (size 1.27 1.27)) (hide yes))\n\t\t)\n",
        ).done();
        i += 1;
    }
    r
}

fn effects_of(hidden: bool) -> (r: &'static str)
    ensures
        r@ == shown_effects(hidden),
{
    if hidden {
        "\t\t\t(effects (font (size 1.27 1.27)) (justify left) (hide yes))\n\t\t)\n"
    } else {
        "\t\t\t(effects (font (size 1.27 1.27)) (justify left))\n\t\t)\n"
    }
}

fn render_head(i: &Instance) -> (r: String)
    ensures
        r@ == instance_head(i@),
{
    let uuid = match &i.uuid {
        Some(u) => u.clone(),
        None => stable_uuid("symbol", i.refdes.as_str()),
    };
    Line::of("\t(symbol\n\t\t(lib_id \"").add(i.lib_id.as_str()).add("\")\n\t\t(at ").add(
        fmt_coord(i.at.x).as_str(),
    ).add(" ").add(fmt_coord(i.at.y).as_str()).add(" ").whole(i.angle as i64).add(
        ")\n\t\t(unit 1)\n\t\t(exclude_from_sim no)\n\t\t(in_bom yes)\n\t\t(on_board yes)\n\t\t(dnp no)\n\t\t(uuid \"",
    ).add(uuid.as_str()).add("\")\n").done()
}

fn render_fields(i: &Instance) -> (r: String)
    ensures
        r@ == instance_fields(i@),
{
    let x = fmt_coord(cut_wide(i.at.x as i128 + i.half_w as i128 + 127_000));
    let above = fmt_coord(cut_wide(i.at.y as i128 - 127_000));
    let below = fmt_coord(cut_wide(i.at.y as i128 + 127_000));
    Line::of("\t\t(property \"Reference\" \"").add(
        escape_sexpr_string(i.refdes.as_str()).as_str(),
    ).add("\"\n\t\t\t(at ").add(x.as_str()).add(" ").add(above.as_str()).add(" 0)\n").add(
        effects_of(starts_with(i.refdes.as_str(), "#")),
    ).add("\t\t(property \"Value\" \"").add(escape_sexpr_string(i.value.as_str()).as_str()).add(
        "\"\n\t\t\t(at ",
    ).add(x.as_str()).add(" ").add(below.as_str()).add(" 0)\n").add(
        effects_of(same(i.lib_id.as_str(), "power:PWR_FLAG")),
    ).add("\t\t(property \"Footprint\" \"\"\n\t\t\t(at ").add(fmt_coord(i.at.x).as_str()).add(
        " ",
    ).add(fmt_coord(i.at.y).as_str()).add(
        " 0)\n\t\t\t(effects (font (size 1.27 1.27)) (hide yes))\n\t\t)\n",
    ).done()
}

fn render_instance(i: &Instance, root: &str) -> (r: String)
    ensures
        r@ == instance_text(i@, root@),
{
    let refdes = escape_sexpr_string(i.refdes.as_str());
    let tail = Line::of("\t\t(instances\n\t\t\t(project \"\"\n\t\t\t\t(path \"/").add(root).add(
        "\"\n\t\t\t\t\t(reference \"",
    ).add(refdes.as_str()).add(
        "\")\n\t\t\t\t\t(unit 1)\n\t\t\t\t)\n\t\t\t)\n\t\t)\n\n\t)\n",
    ).done();
    assert(emit::pairs_v(i.extra@).len() == i.extra@.len());
    Line::of(render_head(i).as_str()).add(render_fields(i).as_str()).add(
        render_props(&i.extra, i.at).as_str(),
    ).add(tail.as_str()).done()
}

// ---------------------------------------------------------------- the document
/// The first `n` definitions.
pub open spec fn libs_text(v: Seq<(Seq<char>, Seq<char>)>, n: int) -> Seq<char>
    decreases n,
{
    if n <= 0 {
        ""@
    } else {
        libs_text(v, n - 1) + "\t\t"@ + v[n - 1].1 + "\n"@
    }
}

/// Texts in an order, one behind the other.
pub open spec fn chained(v: Seq<Seq<char>>, o: Seq<int>, n: int) -> Seq<char>
    decreases n,
{
    if n <= 0 {
        ""@
    } else {
        chained(v, o, n - 1) + v[o[n - 1]]
    }
}

/// Texts in the order of their keys.
pub open spec fn by_keys(v: Seq<Seq<char>>, keys: Seq<Seq<char>>) -> Seq<char> {
    chained(v, retract::key_order(keys), v.len() as int)
}

pub open spec fn header_text(root: Seq<char>) -> Seq<char> {
    "(kicad_sch\n\t(version 20250114)\n\t(generator \"auto-pcb\")\n\t(generator_version \"0.1\")\n\t(uuid \""@
        + root + "\")\n\t(paper \"A4\")\n\t(lib_symbols\n"@
}

pub open spec fn footer_text() -> Seq<char> {
    "\t(sheet_instances\n\t\t(path \"/\"\n\t\t\t(page \"1\")\n\t\t)\n\t)\n)\n"@
}

pub open spec fn mark_texts(m: Seq<MarkV>, open: bool) -> Seq<Seq<char>> {
    Seq::new(
        m.len(),
        |i: int|
            if open {
                no_connect_text(m[i])
            } else {
                junction_text(m[i])
            },
    )
}

pub open spec fn mark_keys(m: Seq<MarkV>) -> Seq<Seq<char>> {
    Seq::new(m.len(), |i: int| m[i].key)
}

pub open spec fn label_texts(m: Seq<PinLabelV>) -> Seq<Seq<char>> {
    Seq::new(m.len(), |i: int| label_text(m[i]))
}

pub open spec fn wire_texts(m: Seq<WireV>) -> Seq<Seq<char>> {
    Seq::new(m.len(), |i: int| wire_text(m[i]))
}

pub open spec fn wire_keys(m: Seq<WireV>) -> Seq<Seq<char>> {
    Seq::new(m.len(), |i: int| m[i].key)
}

pub open spec fn text_texts(m: Seq<SheetTextV>) -> Seq<Seq<char>> {
    Seq::new(m.len(), |i: int| text_text(m[i]))
}

pub open spec fn text_keys(m: Seq<SheetTextV>) -> Seq<Seq<char>> {
    Seq::new(m.len(), |i: int| m[i].key)
}

pub open spec fn rect_texts(m: Seq<SheetRectV>) -> Seq<Seq<char>> {
    Seq::new(m.len(), |i: int| rect_text(m[i]))
}

pub open spec fn rect_keys(m: Seq<SheetRectV>) -> Seq<Seq<char>> {
    Seq::new(m.len(), |i: int| m[i].key)
}

pub open spec fn instance_texts(m: Seq<InstanceV>, root: Seq<char>) -> Seq<Seq<char>> {
    Seq::new(m.len(), |i: int| instance_text(m[i], root))
}

pub open spec fn instance_keys(m: Seq<InstanceV>) -> Seq<Seq<char>> {
    Seq::new(m.len(), |i: int| m[i].refdes)
}

/// A sheet as a document: each kind of item in the order of its keys, symbols in the order of
/// their references.
pub open spec fn document(w: WriterV) -> Seq<char> {
    let root = ids::stable("sheet"@, "root"@);
    header_text(root) + libs_text(w.lib_symbols, w.lib_symbols.len() as int) + "\t)\n"@ + by_keys(
        mark_texts(w.no_connects, true),
        mark_keys(w.no_connects),
    ) + by_keys(label_texts(w.labels), retract::label_keys(w.labels)) + by_keys(
        wire_texts(w.wires),
        wire_keys(w.wires),
    ) + by_keys(mark_texts(w.junctions, false), mark_keys(w.junctions)) + by_keys(
        text_texts(w.texts),
        text_keys(w.texts),
    ) + by_keys(rect_texts(w.rects), rect_keys(w.rects)) + by_keys(
        instance_texts(w.instances, root),
        instance_keys(w.instances),
    ) + footer_text()
}

fn chain_by_keys(v: &Vec<String>, keys: &Vec<String>) -> (r: String)
    requires
        v@.len() == keys@.len(),
    ensures
        r@ == by_keys(text::views(v@), text::views(keys@)),
{
    let ghost tv = text::views(v@);
    let o = order_keys(keys);
    let ghost ov = order::as_ints(o@);
    let mut r = "".to_owned();
    let mut i: usize = 0;
    while i < o.len()
        invariant
            i <= o@.len(),
            o@.len() == v@.len(),
            tv == text::views(v@),
            ov == order::as_ints(o@),
            forall|k: int| 0 <= k < o@.len() ==> #[trigger] o@[k] < v@.len(),
            r@ == chained(tv, ov, i as int),
        decreases o@.len() - i,
    {
        assert(ov[i as int] == o@[i as int]);
        assert(tv[o@[i as int] as int] == v@[o@[i as int] as int]@);
        r.append(v[o[i]].as_str());
        i += 1;
    }
    assert(tv.len() == o@.len());
    r
}

fn render_marks(v: &Vec<Mark>, open: bool) -> (r: String)
    ensures
        r@ == by_keys(mark_texts(emit::marks_v(v@), open), mark_keys(emit::marks_v(v@))),
{
    let ghost m = emit::marks_v(v@);
    let mut t: Vec<String> = Vec::new();
    let mut k: Vec<String> = Vec::new();
    let mut i: usize = 0;
    while i < v.len()
        invariant
            i <= v@.len(),
            m == emit::marks_v(v@),
            t@.len() == i,
            k@.len() == i,
            forall|j: int|
                0 <= j < i ==> (#[trigger] t@[j])@ == (if open {
                    no_connect_text(m[j])
                } else {
                    junction_text(m[j])
                }),
            forall|j: int| 0 <= j < i ==> (#[trigger] k@[j])@ == m[j].key,
        decreases v@.len() - i,
    {
        assert(m[i as int] == v@[i as int]@);
        let s = if open { render_no_connect(&v[i]) } else { render_junction(&v[i]) };
        t.push(s);
        k.push(v[i].key.clone());
        i += 1;
    }
    assert(text::views(t@) =~= mark_texts(m, open));
    assert(text::views(k@) =~= mark_keys(m));
    chain_by_keys(&t, &k)
}

fn render_labels(v: &Vec<PinLabel>) -> (r: String)
    ensures
        r@ == by_keys(label_texts(emit::labels_v(v@)), retract::label_keys(emit::labels_v(v@))),
{
    let ghost m = emit::labels_v(v@);
    let mut t: Vec<String> = Vec::new();
    let mut k: Vec<String> = Vec::new();
    let mut i: usize = 0;
    while i < v.len()
        invariant
            i <= v@.len(),
            m == emit::labels_v(v@),
            t@.len() == i,
            k@.len() == i,
            forall|j: int| 0 <= j < i ==> (#[trigger] t@[j])@ == label_text(m[j]),
            forall|j: int| 0 <= j < i ==> (#[trigger] k@[j])@ == m[j].key,
        decreases v@.len() - i,
    {
        assert(m[i as int] == v@[i as int]@);
        t.push(render_label(&v[i]));
        k.push(v[i].key.clone());
        i += 1;
    }
    assert(text::views(t@) =~= label_texts(m));
    assert(text::views(k@) =~= retract::label_keys(m));
    chain_by_keys(&t, &k)
}

fn render_wires(v: &Vec<Wire>) -> (r: String)
    ensures
        r@ == by_keys(wire_texts(emit::wires_v(v@)), wire_keys(emit::wires_v(v@))),
{
    let ghost m = emit::wires_v(v@);
    let mut t: Vec<String> = Vec::new();
    let mut k: Vec<String> = Vec::new();
    let mut i: usize = 0;
    while i < v.len()
        invariant
            i <= v@.len(),
            m == emit::wires_v(v@),
            t@.len() == i,
            k@.len() == i,
            forall|j: int| 0 <= j < i ==> (#[trigger] t@[j])@ == wire_text(m[j]),
            forall|j: int| 0 <= j < i ==> (#[trigger] k@[j])@ == m[j].key,
        decreases v@.len() - i,
    {
        assert(m[i as int] == v@[i as int]@);
        t.push(render_wire(&v[i]));
        k.push(v[i].key.clone());
        i += 1;
    }
    assert(text::views(t@) =~= wire_texts(m));
    assert(text::views(k@) =~= wire_keys(m));
    chain_by_keys(&t, &k)
}

fn render_texts(v: &Vec<SheetText>) -> (r: String)
    ensures
        r@ == by_keys(text_texts(emit::texts_v(v@)), text_keys(emit::texts_v(v@))),
{
    let ghost m = emit::texts_v(v@);
    let mut t: Vec<String> = Vec::new();
    let mut k: Vec<String> = Vec::new();
    let mut i: usize = 0;
    while i < v.len()
        invariant
            i <= v@.len(),
            m == emit::texts_v(v@),
            t@.len() == i,
            k@.len() == i,
            forall|j: int| 0 <= j < i ==> (#[trigger] t@[j])@ == text_text(m[j]),
            forall|j: int| 0 <= j < i ==> (#[trigger] k@[j])@ == m[j].key,
        decreases v@.len() - i,
    {
        assert(m[i as int] == v@[i as int]@);
        t.push(render_text(&v[i]));
        k.push(v[i].key.clone());
        i += 1;
    }
    assert(text::views(t@) =~= text_texts(m));
    assert(text::views(k@) =~= text_keys(m));
    chain_by_keys(&t, &k)
}

fn render_rects(v: &Vec<SheetRect>) -> (r: String)
    ensures
        r@ == by_keys(rect_texts(emit::rects_v(v@)), rect_keys(emit::rects_v(v@))),
{
    let ghost m = emit::rects_v(v@);
    let mut t: Vec<String> = Vec::new();
    let mut k: Vec<String> = Vec::new();
    let mut i: usize = 0;
    while i < v.len()
        invariant
            i <= v@.len(),
            m == emit::rects_v(v@),
            t@.len() == i,
            k@.len() == i,
            forall|j: int| 0 <= j < i ==> (#[trigger] t@[j])@ == rect_text(m[j]),
            forall|j: int| 0 <= j < i ==> (#[trigger] k@[j])@ == m[j].key,
        decreases v@.len() - i,
    {
        assert(m[i as int] == v@[i as int]@);
        t.push(render_rect(&v[i]));
        k.push(v[i].key.clone());
        i += 1;
    }
    assert(text::views(t@) =~= rect_texts(m));
    assert(text::views(k@) =~= rect_keys(m));
    chain_by_keys(&t, &k)
}

fn render_instances(v: &Vec<Instance>, root: &str) -> (r: String)
    ensures
        r@ == by_keys(instance_texts(emit::instances_v(v@), root@), instance_keys(emit::instances_v(v@))),
{
    let ghost m = emit::instances_v(v@);
    let mut t: Vec<String> = Vec::new();
    let mut k: Vec<String> = Vec::new();
    let mut i: usize = 0;
    while i < v.len()
        invariant
            i <= v@.len(),
            m == emit::instances_v(v@),
            t@.len() == i,
            k@.len() == i,
            forall|j: int| 0 <= j < i ==> (#[trigger] t@[j])@ == instance_text(m[j], root@),
            forall|j: int| 0 <= j < i ==> (#[trigger] k@[j])@ == m[j].refdes,
        decreases v@.len() - i,
    {
        assert(m[i as int] == v@[i as int]@);
        t.push(render_instance(&v[i], root));
        k.push(v[i].refdes.clone());
        i += 1;
    }
    assert(text::views(t@) =~= instance_texts(m, root@));
    assert(text::views(k@) =~= instance_keys(m));
    chain_by_keys(&t, &k)
}

fn render_libs(v: &Vec<(String, String)>) -> (r: String)
    ensures
        r@ == libs_text(emit::pairs_v(v@), v@.len() as int),
{
    let ghost pv = emit::pairs_v(v@);
    let mut r = "".to_owned();
    let mut i: usize = 0;
    while i < v.len()
        invariant
            i <= v@.len(),
            pv == emit::pairs_v(v@),
            r@ == libs_text(pv, i as int),
        decreases v@.len() - i,
    {
        assert(pv[i as int] == (v@[i as int].0@, v@[i as int].1@));
        r = Line::of(r.as_str()).add("\t\t").add(v[i].1.as_str()).add("\n").done();
        i += 1;
    }
    r
}

impl SchematicWriter {
    /// The whole sheet as a document, its stubs settled first.
    pub fn finish(self) -> (r: String)
        ensures
            r@ == document(retract::retracted(self@)),
    {
        let mut w = self;
        w.retract_colliding_stubs();
        let ghost v = w@;
        let root = stable_uuid("sheet", "root");
        let ncs = render_marks(&w.no_connects, true);
        let labels = render_labels(&w.labels);
        let wires = render_wires(&w.wires);
        let junctions = render_marks(&w.junctions, false);
        let texts = render_texts(&w.texts);
        let rects = render_rects(&w.rects);
        let insts = render_instances(&w.instances, root.as_str());
        let libs = render_libs(&w.lib_symbols);
        let head = Line::of(
            "(kicad_sch\n\t(version 20250114)\n\t(generator \"auto-pcb\")\n\t(generator_version \"0.1\")\n\t(uuid \"",
        ).add(root.as_str()).add("\")\n\t(paper \"A4\")\n\t(lib_symbols\n").done();
        assert(w.lib_symbols@.len() == v.lib_symbols.len());
        Line::of(head.as_str()).add(libs.as_str()).add("\t)\n").add(ncs.as_str()).add(
            labels.as_str(),
        ).add(wires.as_str()).add(junctions.as_str()).add(texts.as_str()).add(rects.as_str()).add(
            insts.as_str(),
        ).add(
            "\t(sheet_instances\n\t\t(path \"/\"\n\t\t\t(page \"1\")\n\t\t)\n\t)\n)\n",
        ).done()
    }

    /// Places a PWR_FLAG and labels its pin with the net it drives.
    pub fn add_power_flag(&mut self, gallery: &Gallery, net: &str, refdes: &str, at: Pt) -> (r: Result<
        (),
        EmitError,
    >)
        ensures
            match gallery.found("power:PWR_FLAG"@) {
                None => r is Err && r->Err_0@ == EmitErrorV::NoSymbol("power:PWR_FLAG"@)
                    && final(self)@ == old(self)@,
                Some(g) => {
                    let w = old(self)@.with_symbol(
                        g,
                        refdes@,
                        "PWR_FLAG"@,
                        at,
                        0,
                        Seq::empty(),
                        None,
                    );
                    match emit::pin_ends(w, *gallery, refdes@, "1"@) {
                        Ok(v) => r is Ok && final(self)@ == (WriterV {
                            labels: w.labels + emit::end_labels(
                                v,
                                refdes@,
                                "1"@,
                                net@,
                                v.len() as int,
                            ),
                            ..w
                        }),
                        Err(e) => r is Err && r->Err_0@ == e && final(self)@ == w,
                    }
                },
            },
    {
        match self.add_symbol(gallery, "power:PWR_FLAG", refdes, "PWR_FLAG", at, 0) {
            Ok(_) => {},
            Err(e) => return Err(e),
        }
        self.add_pin_label(gallery, refdes, "1", net)
    }
}

// ---------------------------------------------------------------- findings
/// Something that takes room on the sheet: how it is called, its box, the symbol it belongs to.
#[verifier::ext_equal]
pub struct ItemV {
    pub name: Seq<char>,
    pub room: BBox,
    pub owner: Seq<char>,
    pub symbol: bool,
}

/// A coordinate with a decimal point, as messages show it.
pub open spec fn point_coord(v: i64) -> Seq<char> {
    if orient::cut(v as int) % 100_000 == 0 {
        emit::coord(v) + ".0"@
    } else {
        emit::coord(v)
    }
}

pub open spec fn cut_box(x0: int, y0: int, x1: int, y1: int) -> BBox {
    BBox { x0: orient::cut(x0), y0: orient::cut(y0), x1: orient::cut(x1), y1: orient::cut(y1) }
}

pub open spec fn symbol_item(i: InstanceV) -> ItemV {
    ItemV {
        name: "symbol "@ + i.refdes,
        room: cut_box(
            i.at.x - i.half_w,
            i.at.y - i.half_h,
            i.at.x + i.half_w,
            i.at.y + i.half_h,
        ),
        owner: i.refdes,
        symbol: true,
    }
}

/// The box of a label: a letter is 1.1 mm wide and the text 1.6 mm high.
pub open spec fn label_item(l: PinLabelV) -> ItemV {
    let len = 110_000 * (l.net.len() as int);
    let (x, y) = (l.at.x as int, l.at.y as int);
    ItemV {
        name: "label \""@ + l.net + "\" at ["@ + point_coord(l.at.x) + ", "@ + point_coord(l.at.y)
            + "]"@,
        room: match l.dir {
            Dir::East => cut_box(x, y - 160_000, x + len, y),
            Dir::West => cut_box(x - len, y - 160_000, x, y),
            Dir::North => cut_box(x - 160_000, y - len, x, y),
            Dir::South => cut_box(x, y, x + 160_000, y + len),
        },
        owner: text::pieces(l.key, ':')[0],
        symbol: false,
    }
}

/// The items of the symbols among the first `n` that are no power symbols.
pub open spec fn symbol_items(v: Seq<InstanceV>, n: int) -> Seq<ItemV>
    decreases n,
{
    if n <= 0 {
        Seq::empty()
    } else if text::starts(v[n - 1].refdes, "#"@) {
        symbol_items(v, n - 1)
    } else {
        symbol_items(v, n - 1).push(symbol_item(v[n - 1]))
    }
}

pub open spec fn items_of(w: WriterV) -> Seq<ItemV> {
    symbol_items(w.instances, w.instances.len() as int) + Seq::new(
        w.labels.len(),
        |i: int| label_item(w.labels[i]),
    )
}

/// Whether two boxes overlap; touching at an edge is not overlapping.
pub open spec fn overlap(a: BBox, b: BBox) -> bool {
    a.x0 < b.x1 && b.x0 < a.x1 && a.y0 < b.y1 && b.y0 < a.y1
}

/// Whether two references are in a list of pairs, the lesser first.
pub open spec fn paired(v: Seq<(Seq<char>, Seq<char>)>, a: Seq<char>, b: Seq<char>) -> bool {
    if text::before(b, a) {
        v.contains((b, a))
    } else {
        v.contains((a, b))
    }
}

/// Whether two items are a symbol's body and a label of the same symbol.
pub open spec fn label_on_own_body(a: ItemV, b: ItemV) -> bool {
    a.symbol != b.symbol && a.owner == b.owner
}

/// Whether two items are reported: they overlap, and are neither a label and the body it belongs
/// to nor symbols that are meant to stand close.
pub open spec fn clash(a: ItemV, b: ItemV, close: Seq<(Seq<char>, Seq<char>)>) -> bool {
    !label_on_own_body(a, b) && overlap(a.room, b.room) && !(a.symbol && b.symbol && paired(
        close,
        a.owner,
        b.owner,
    ))
}

/// What item `i` clashes with among the items before `n`.
pub open spec fn clashes_of(v: Seq<ItemV>, close: Seq<(Seq<char>, Seq<char>)>, i: int, n: int) -> Seq<
    Seq<char>,
>
    decreases n,
{
    if n <= 0 || n <= i + 1 {
        Seq::empty()
    } else {
        let rest = clashes_of(v, close, i, n - 1);
        if clash(v[i], v[n - 1], close) {
            rest.push(v[i].name + " overlaps "@ + v[n - 1].name)
        } else {
            rest
        }
    }
}

pub open spec fn clashes(v: Seq<ItemV>, close: Seq<(Seq<char>, Seq<char>)>, n: int) -> Seq<Seq<char>>
    decreases n,
{
    if n <= 0 {
        Seq::empty()
    } else {
        clashes(v, close, n - 1) + clashes_of(v, close, n - 1, v.len() as int)
    }
}

/// The overlaps of a sheet in ascending order.
pub open spec fn findings(w: WriterV, close: Seq<(Seq<char>, Seq<char>)>) -> Seq<Seq<char>> {
    let v = items_of(w);
    let c = clashes(v, close, v.len() as int);
    names::sorted(c, c.len() as int)
}

struct Item {
    name: String,
    room: BBox,
    owner: String,
    symbol: bool,
}

impl Item {
    spec fn view(&self) -> ItemV {
        ItemV { name: self.name@, room: self.room, owner: self.owner@, symbol: self.symbol }
    }
}

spec fn items_v(v: Seq<Item>) -> Seq<ItemV> {
    Seq::new(v.len(), |i: int| v[i]@)
}

fn make_box(x0: i128, y0: i128, x1: i128, y1: i128) -> (r: BBox)
    ensures
        r == cut_box(x0 as int, y0 as int, x1 as int, y1 as int),
{
    BBox { x0: cut_wide(x0), y0: cut_wide(y0), x1: cut_wide(x1), y1: cut_wide(y1) }
}

fn show_coord(v: i64) -> (r: String)
    ensures
        r@ == point_coord(v),
{
    let c = cut_off(v);
    let a: i64 = if c < 0 { -c } else { c };
    let s = fmt_coord(v);
    if a % 100_000 == 0 {
        Line::of(s.as_str()).add(".0").done()
    } else {
        s
    }
}

fn make_label_item(l: &PinLabel) -> (r: Item)
    ensures
        r@ == label_item(l@),
{
    let n = l.net.as_str().unicode_len();
    let len: i128 = 110_000 * (n as i128);
    let x = l.at.x as i128;
    let y = l.at.y as i128;
    let room = match l.dir {
        Dir::East => make_box(x, y - 160_000, x + len, y),
        Dir::West => make_box(x - len, y - 160_000, x, y),
        Dir::North => make_box(x - 160_000, y - len, x, y),
        Dir::South => make_box(x, y, x + 160_000, y + len),
    };
    let name = Line::of("label \"").add(l.net.as_str()).add("\" at [").add(
        show_coord(l.at.x).as_str(),
    ).add(", ").add(show_coord(l.at.y).as_str()).add("]").done();
    let mut ps = split(l.key.as_str(), ':');
    assert(text::views(ps@)[0] == ps@[0]@);
    let owner = ps.remove(0);
    Item { name, room, owner, symbol: false }
}

fn list_items(w: &SchematicWriter) -> (r: Vec<Item>)
    ensures
        items_v(r@) == items_of(w@),
{
    let ghost wv = w@;
    let mut r: Vec<Item> = Vec::new();
    let mut i: usize = 0;
    assert(items_v(r@) =~= Seq::empty());
    while i < w.instances.len()
        invariant
            i <= w.instances@.len(),
            wv.instances == emit::instances_v(w.instances@),
            items_v(r@) == symbol_items(wv.instances, i as int),
        decreases w.instances@.len() - i,
    {
        let s = &w.instances[i];
        assert(wv.instances[i as int] == s@);
        if !starts_with(s.refdes.as_str(), "#") {
            let ghost r0 = items_v(r@);
            let room = make_box(
                s.at.x as i128 - s.half_w as i128,
                s.at.y as i128 - s.half_h as i128,
                s.at.x as i128 + s.half_w as i128,
                s.at.y as i128 + s.half_h as i128,
            );
            let name = Line::of("symbol ").add(s.refdes.as_str()).done();
            let it = Item { name, room, owner: s.refdes.clone(), symbol: true };
            let ghost iv = it@;
            r.push(it);
            assert(items_v(r@) =~= r0.push(iv));
        }
        i += 1;
    }
    let ghost base = items_v(r@);
    let ghost want = Seq::new(wv.labels.len(), |i: int| label_item(wv.labels[i]));
    i = 0;
    assert(items_v(r@) =~= base + want.take(0));
    while i < w.labels.len()
        invariant
            i <= w.labels@.len(),
            wv.labels == emit::labels_v(w.labels@),
            want == Seq::new(wv.labels.len(), |i: int| label_item(wv.labels[i])),
            items_v(r@) == base + want.take(i as int),
        decreases w.labels@.len() - i,
    {
        assert(wv.labels[i as int] == w.labels@[i as int]@);
        let ghost r0 = items_v(r@);
        let it = make_label_item(&w.labels[i]);
        let ghost iv = it@;
        r.push(it);
        assert(items_v(r@) =~= r0.push(iv));
        assert(want.take(i + 1) =~= want.take(i as int).push(want[i as int]));
        assert(items_v(r@) =~= base + want.take(i + 1));
        i += 1;
    }
    assert(want.take(i as int) =~= want);
    r
}

fn is_paired(v: &Vec<(String, String)>, a: &str, b: &str) -> (r: bool)
    ensures
        r == paired(emit::pairs_v(v@), a@, b@),
{
    let ghost pv = emit::pairs_v(v@);
    let swap = text::is_before(b, a);
    let (x, y) = if swap { (b, a) } else { (a, b) };
    let mut i: usize = 0;
    while i < v.len()
        invariant
            i <= v@.len(),
            pv == emit::pairs_v(v@),
            swap == text::before(b@, a@),
            swap ==> x@ == b@ && y@ == a@,
            !swap ==> x@ == a@ && y@ == b@,
            forall|k: int| 0 <= k < i ==> #[trigger] pv[k] != (x@, y@),
        decreases v@.len() - i,
    {
        assert(pv[i as int] == (v@[i as int].0@, v@[i as int].1@));
        if same(v[i].0.as_str(), x) && same(v[i].1.as_str(), y) {
            assert(pv[i as int] == (x@, y@));
            return true;
        }
        i += 1;
    }
    false
}

impl SchematicWriter {
    /// One finding for each pair of symbols or labels that overlap, but for symbols that are meant
    /// to stand close.
    pub fn layout_warnings_excluding(&self, close: &Vec<(String, String)>) -> (r: Vec<String>)
        ensures
            text::views(r@) == findings(self@, emit::pairs_v(close@)),
    {
        let v = list_items(self);
        let ghost iv = items_v(v@);
        let ghost cv = emit::pairs_v(close@);
        let mut out: Vec<String> = Vec::new();
        let mut i: usize = 0;
        assert(iv.len() == v@.len());
        assert(text::views(out@) =~= Seq::empty());
        while i < v.len()
            invariant
                i <= v@.len(),
                iv == items_v(v@),
                iv.len() == v@.len(),
                cv == emit::pairs_v(close@),
                text::views(out@) == clashes(iv, cv, i as int),
            decreases v@.len() - i,
        {
            let ghost o0 = text::views(out@);
            assert(iv[i as int] == v@[i as int]@);
            let mut j: usize = i + 1;
            assert(text::views(out@) =~= o0 + clashes_of(iv, cv, i as int, i + 1));
            while j < v.len()
                invariant
                    i < j <= v@.len(),
                    iv == items_v(v@),
                    cv == emit::pairs_v(close@),
                    iv[i as int] == v@[i as int]@,
                    text::views(out@) == o0 + clashes_of(iv, cv, i as int, j as int),
                decreases v@.len() - j,
            {
                assert(iv[j as int] == v@[j as int]@);
                let (a, b) = (v[i].room, v[j].room);
                let own = v[i].symbol != v[j].symbol && same(
                    v[i].owner.as_str(),
                    v[j].owner.as_str(),
                );
                if !own && a.x0 < b.x1 && b.x0 < a.x1
                    && a.y0 < b.y1 && b.y0 < a.y1 && !(v[i].symbol && v[j].symbol && is_paired(
                    close,
                    v[i].owner.as_str(),
                    v[j].owner.as_str(),
                )) {
                    let ghost o1 = text::views(out@);
                    let n = Line::of(v[i].name.as_str()).add(" overlaps ").add(
                        v[j].name.as_str(),
                    ).done();
                    let ghost nv = n@;
                    out.push(n);
                    assert(text::views(out@) =~= o1.push(nv));
                    assert(text::views(out@) =~= o0 + clashes_of(iv, cv, i as int, j + 1));
                }
                j += 1;
            }
            i += 1;
        }
        assert(text::views(out@).len() == out@.len());
        sort_names(&out)
    }

    /// One finding for each pair of symbols or labels that overlap.
    pub fn layout_warnings(&self) -> (r: Vec<String>)
        ensures
            text::views(r@) == findings(self@, Seq::empty()),
    {
        let none: Vec<(String, String)> = Vec::new();
        assert(emit::pairs_v(none@) =~= Seq::empty());
        self.layout_warnings_excluding(&none)
    }
}

} // verus!
