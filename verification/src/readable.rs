//! Whether the texts of a sheet can be read: they overlap neither bodies nor each other, and no
//! foreign wire runs through them.
use crate::check;
use crate::check::{
    fmt_key, fmt_pt, overlap, seg_crosses_box, segments_cross, Area, AreaV, Sheet, SheetV,
};
use crate::compile;
use crate::compile::{first_chars, Key, TextItem, TextItemV};
use crate::geo;
use crate::geo::words;
use crate::geom;
use crate::geom::Pt;
use crate::model;
use crate::model::{Design, Label, LabelV, Text, TextV};
use crate::pinref;
use crate::pinref::note;
use crate::text;
use crate::text::{same, split, Line};
use vstd::prelude::*;

verus! {

/// Texts are measured in units this much finer than the sheet's.
pub const FINE: i128 = 200;

/// Where a text stands to its anchor across its line: -1 for left, 1 for right, 0 in between.
pub open spec fn across(words: Seq<Seq<char>>, n: int) -> int
    decreases n,
{
    if n <= 0 {
        0
    } else if words[n - 1] == "left"@ {
        -1
    } else if words[n - 1] == "right"@ {
        1
    } else {
        across(words, n - 1)
    }
}

/// The same along its height: -1 for bottom, 1 for top.
pub open spec fn upright(words: Seq<Seq<char>>, n: int) -> int
    decreases n,
{
    if n <= 0 {
        0
    } else if words[n - 1] == "bottom"@ {
        -1
    } else if words[n - 1] == "top"@ {
        1
    } else {
        upright(words, n - 1)
    }
}

/// The span of a text of half size `h` whose anchor is its low end, its middle or its high end.
pub open spec fn span(c: int, h: int, side: int) -> (int, int) {
    if side < 0 {
        (c, c + 2 * h)
    } else if side > 0 {
        (c - 2 * h, c)
    } else {
        (c - h, c + h)
    }
}

/// The area of a text of half width `hw` and half height `hh` at an anchor; a text that runs upward
/// reads from below.
pub open spec fn text_area(x: int, y: int, rot: int, justify: Seq<char>, hw: int, hh: int) -> AreaV {
    let w = geo::words_from(justify, 0, Seq::empty());
    let a = across(w, w.len() as int);
    let u = upright(w, w.len() as int);
    if rot % 180 == 90 {
        let (y0, y1) = span(y, hw, -a);
        let (x0, x1) = span(x, hh, -u);
        AreaV { x0, y0, x1, y1 }
    } else {
        let (x0, x1) = span(x, hw, a);
        let (y0, y1) = span(y, hh, -u);
        AreaV { x0, y0, x1, y1 }
    }
}

/// A text on the sheet: whose it is, how messages call it, its area and its anchor.
#[verifier::ext_equal]
pub struct BoxedV {
    pub owner: Seq<char>,
    pub desc: Seq<char>,
    pub area: AreaV,
    pub at: Pt,
}

#[derive(Debug)]
pub struct Boxed {
    pub owner: String,
    pub desc: String,
    pub area: Area,
    pub at: Pt,
}

impl Boxed {
    pub open spec fn view(&self) -> BoxedV {
        BoxedV { owner: self.owner@, desc: self.desc@, area: self.area@, at: self.at }
    }

    pub open spec fn wf(&self) -> bool {
        self.area.wf() && compile::around_sheet(self.at.x as int, self.at.y as int)
    }
}

pub open spec fn boxed_v(v: Seq<Boxed>) -> Seq<BoxedV> {
    Seq::new(v.len(), |i: int| v[i]@)
}

pub open spec fn boxed_ok(v: Seq<Boxed>) -> bool {
    forall|i: int| 0 <= i < v.len() ==> (#[trigger] v[i]).wf()
}

/// Texts of symbols: a letter is nineteen twentieths of its size wide, a line one and a half high.
pub open spec fn item_box(t: TextItemV) -> BoxedV {
    BoxedV {
        owner: t.owner,
        desc: t.kind + " text '"@ + t.text + "' of "@ + t.owner,
        area: text_area(
            t.x * FINE,
            t.y * FINE,
            t.rot,
            t.justify,
            95 * t.size * t.text.len(),
            150 * t.size,
        ),
        at: Pt { x: t.x as i64, y: t.y as i64 },
    }
}

/// The text of a local label stands above its line; others are centred on it.
pub open spec fn label_box(l: LabelV) -> BoxedV {
    let x = l.at.x * FINE;
    let y = l.at.y * FINE;
    let local = l.kind == "local"@;
    let w = (120_650 * l.text.len() + (if local {
        60_000int
    } else {
        300_000
    })) * FINE;
    let up = (if local {
        190_500int
    } else {
        95_250
    }) * FINE;
    let down = (if local {
        0int
    } else {
        95_250
    }) * FINE;
    BoxedV {
        owner: "label:"@ + l.text,
        desc: "label '"@ + l.text + "'"@,
        area: if l.rot == 0 {
            AreaV { x0: x, y0: y - up, x1: x + w, y1: y + down }
        } else if l.rot == 180 {
            AreaV { x0: x - w, y0: y - up, x1: x, y1: y + down }
        } else if l.rot == 90 {
            AreaV { x0: x - up, y0: y - w, x1: x + down, y1: y }
        } else {
            AreaV { x0: x - up, y0: y, x1: x + down, y1: y + w }
        },
        at: l.at,
    }
}

/// The length of the longest of the first `n` lines.
pub open spec fn longest(v: Seq<Seq<char>>, n: int) -> int
    decreases n,
{
    if n <= 0 {
        0
    } else {
        geom::hi(longest(v, n - 1), v[n - 1].len() as int)
    }
}

pub open spec fn note_box(t: TextV) -> BoxedV {
    let v = text::pieces(t.text, '\n');
    BoxedV {
        owner: "text:"@ + compile::cut_to(t.text, 20),
        desc: "note '"@ + compile::cut_to(t.text, 25) + "'"@,
        area: text_area(
            t.at.x * FINE,
            t.at.y * FINE,
            t.rot,
            t.justify,
            95 * t.size * longest(v, v.len() as int),
            150 * t.size * v.len(),
        ),
        at: t.at,
    }
}

/// All texts of a sheet.
pub open spec fn text_boxes(items: Seq<TextItemV>, labels: Seq<LabelV>, notes: Seq<TextV>) -> Seq<BoxedV> {
    Seq::new(items.len(), |i: int| item_box(items[i])) + Seq::new(
        labels.len(),
        |i: int| label_box(labels[i]),
    ) + Seq::new(notes.len(), |i: int| note_box(notes[i]))
}

fn justified(v: &Vec<String>) -> (r: (i32, i32))
    ensures
        r.0 == across(text::views(v@), v@.len() as int),
        r.1 == upright(text::views(v@), v@.len() as int),
        -1 <= r.0 <= 1,
        -1 <= r.1 <= 1,
{
    let ghost w = text::views(v@);
    let mut a: i32 = 0;
    let mut u: i32 = 0;
    let mut i: usize = 0;
    while i < v.len()
        invariant
            i <= v@.len(),
            w == text::views(v@),
            a == across(w, i as int),
            u == upright(w, i as int),
            -1 <= a <= 1,
            -1 <= u <= 1,
        decreases v@.len() - i,
    {
        assert(w[i as int] == v@[i as int]@);
        let t = v[i].as_str();
        if same(t, "left") {
            a = -1;
        } else if same(t, "right") {
            a = 1;
        }
        if same(t, "bottom") {
            u = -1;
        } else if same(t, "top") {
            u = 1;
        }
        i += 1;
    }
    (a, u)
}

pub open spec fn half_ok(h: int) -> bool {
    -0x1000_0000_0000_0000_0000_0000_0000_0000 <= h <= 0x1000_0000_0000_0000_0000_0000_0000_0000
}

fn stretch(c: i128, h: i128, side: i32) -> (r: (i128, i128))
    requires
        half_ok(c as int),
        half_ok(h as int),
    ensures
        (r.0 as int, r.1 as int) == span(c as int, h as int, side as int),
        -0x4000_0000_0000_0000_0000_0000_0000_0000 <= r.0
            <= 0x4000_0000_0000_0000_0000_0000_0000_0000,
        -0x4000_0000_0000_0000_0000_0000_0000_0000 <= r.1
            <= 0x4000_0000_0000_0000_0000_0000_0000_0000,
{
    if side < 0 {
        (c, c + 2 * h)
    } else if side > 0 {
        (c - 2 * h, c)
    } else {
        (c - h, c + h)
    }
}

fn box_from(at: Pt, rot: i32, justify: &str, hw: i128, hh: i128) -> (r: Area)
    requires
        compile::around_sheet(at.x as int, at.y as int),
        half_ok(hw as int),
        half_ok(hh as int),
    ensures
        r@ == text_area(
            at.x * FINE,
            at.y * FINE,
            rot as int,
            justify@,
            hw as int,
            hh as int,
        ),
        r.wf(),
{
    let (a, u) = justified(&words(justify));
    let x: i128 = at.x as i128 * FINE;
    let y: i128 = at.y as i128 * FINE;
    if geom::floor_mod(rot as i64, 180) == 90 {
        let (y0, y1) = stretch(y, hw, -a);
        let (x0, x1) = stretch(x, hh, -u);
        Area { x0, y0, x1, y1 }
    } else {
        let (x0, x1) = stretch(x, hw, a);
        let (y0, y1) = stretch(y, hh, -u);
        Area { x0, y0, x1, y1 }
    }
}

proof fn lemma_width(size: int, n: int, f: int)
    requires
        -model::SIZE_MAX <= size <= model::SIZE_MAX,
        0 <= n <= 0xffff_ffff_ffff_ffff,
        0 <= f <= 200,
    ensures
        half_ok(f * size * n),
        half_ok(f * size),
{
    let b = model::SIZE_MAX as int;
    assert(-b * 200 <= f * size <= b * 200) by (nonlinear_arith)
        requires
            -b <= size <= b,
            0 <= f <= 200,
    ;
    let s = f * size;
    let m = b * 200;
    let q = 0xffff_ffff_ffff_ffffint;
    assert(-(m * q) <= s * n <= m * q) by (nonlinear_arith)
        requires
            -m <= s <= m,
            0 <= n <= q,
            m >= 0,
    ;
    assert(m * q == 180_000_000_000_000_000int * 0xffff_ffff_ffff_ffffint);
}

fn box_item(t: &TextItem) -> (r: Boxed)
    requires
        compile::item_ok(*t),
    ensures
        r@ == item_box(t@),
        r.wf(),
{
    let n: usize = t.text.as_str().unicode_len();
    proof {
        lemma_width(t.size as int, n as int, 95);
        lemma_width(t.size as int, 1, 150);
    }
    let hw: i128 = 95 * t.size as i128 * n as i128;
    let hh: i128 = 150 * t.size as i128;
    let desc = Line::of(t.kind.as_str()).add(" text '").add(t.text.as_str()).add("' of ").add(
        t.owner.as_str(),
    ).done();
    let at = Pt { x: t.x, y: t.y };
    let area = box_from(at, t.rot, t.justify.as_str(), hw, hh);
    Boxed { owner: t.owner.clone(), desc, area, at }
}

fn box_label(l: &Label) -> (r: Boxed)
    requires
        model::on_sheet(l.at),
    ensures
        r@ == label_box(l@),
        r.wf(),
{
    let x: i128 = l.at.x as i128 * FINE;
    let y: i128 = l.at.y as i128 * FINE;
    let local = same(l.kind.as_str(), "local");
    let n: usize = l.text.as_str().unicode_len();
    let w: i128 = (120_650 * n as i128 + (if local { 60_000 } else { 300_000 })) * FINE;
    let up: i128 = (if local { 190_500 } else { 95_250 }) * FINE;
    let down: i128 = (if local { 0 } else { 95_250 }) * FINE;
    let area = if l.rot == 0 {
        Area { x0: x, y0: y - up, x1: x + w, y1: y + down }
    } else if l.rot == 180 {
        Area { x0: x - w, y0: y - up, x1: x, y1: y + down }
    } else if l.rot == 90 {
        Area { x0: x - up, y0: y - w, x1: x + down, y1: y }
    } else {
        Area { x0: x - up, y0: y, x1: x + down, y1: y + w }
    };
    let owner = Line::of("label:").add(l.text.as_str()).done();
    let desc = Line::of("label '").add(l.text.as_str()).add("'").done();
    Boxed { owner, desc, area, at: l.at }
}

fn longest_line(v: &Vec<String>) -> (r: usize)
    ensures
        r == longest(text::views(v@), v@.len() as int),
{
    let ghost w = text::views(v@);
    let mut m: usize = 0;
    let mut i: usize = 0;
    while i < v.len()
        invariant
            i <= v@.len(),
            w == text::views(v@),
            m == longest(w, i as int),
        decreases v@.len() - i,
    {
        assert(w[i as int] == v@[i as int]@);
        let n: usize = v[i].as_str().unicode_len();
        if n > m {
            m = n;
        }
        i += 1;
    }
    m
}

fn box_note(t: &Text) -> (r: Boxed)
    requires
        model::text_ok(t@),
    ensures
        r@ == note_box(t@),
        r.wf(),
{
    let v = split(t.text.as_str(), '\n');
    let n: usize = longest_line(&v);
    let k: usize = v.len();
    assert(text::views(v@).len() == k);
    proof {
        lemma_width(t.size as int, n as int, 95);
        lemma_width(t.size as int, k as int, 150);
    }
    let hw: i128 = 95 * t.size as i128 * n as i128;
    let hh: i128 = 150 * t.size as i128 * k as i128;
    let a = first_chars(t.text.as_str(), 20);
    let b = first_chars(t.text.as_str(), 25);
    let owner = Line::of("text:").add(a.as_str()).done();
    let desc = Line::of("note '").add(b.as_str()).add("'").done();
    let area = box_from(t.at, t.rot, t.justify.as_str(), hw, hh);
    Boxed { owner, desc, area, at: t.at }
}

/// The texts of a sheet.
pub(crate) fn all_boxes(items: &Vec<TextItem>, des: &Design) -> (r: Vec<Boxed>)
    requires
        compile::items_ok(items@),
        des@.ok(),
    ensures
        boxed_v(r@) == text_boxes(compile::items_v(items@), des@.labels, des@.texts),
        boxed_ok(r@),
{
    let ghost iv = compile::items_v(items@);
    let ghost a = Seq::new(iv.len(), |i: int| item_box(iv[i]));
    let ghost b = Seq::new(des@.labels.len(), |i: int| label_box(des@.labels[i]));
    let ghost c = Seq::new(des@.texts.len(), |i: int| note_box(des@.texts[i]));
    let mut r: Vec<Boxed> = Vec::new();
    let mut i: usize = 0;
    assert(boxed_v(r@) =~= a.take(0));
    while i < items.len()
        invariant
            i <= items@.len(),
            compile::items_ok(items@),
            iv == compile::items_v(items@),
            a == Seq::new(iv.len(), |i: int| item_box(iv[i])),
            boxed_v(r@) == a.take(i as int),
            boxed_ok(r@),
        decreases items@.len() - i,
    {
        assert(iv[i as int] == items@[i as int]@);
        assert(compile::item_ok(items@[i as int]));
        let ghost r0 = boxed_v(r@);
        let x = box_item(&items[i]);
        let ghost xv = x@;
        r.push(x);
        assert(boxed_v(r@) =~= r0.push(xv));
        assert(a.take(i + 1) =~= a.take(i as int).push(a[i as int]));
        i += 1;
    }
    assert(a.take(a.len() as int) =~= a);
    i = 0;
    assert(boxed_v(r@) =~= a + b.take(0));
    while i < des.labels.len()
        invariant
            i <= des.labels@.len(),
            des@.ok(),
            b == Seq::new(des@.labels.len(), |i: int| label_box(des@.labels[i])),
            boxed_v(r@) == a + b.take(i as int),
            boxed_ok(r@),
        decreases des.labels@.len() - i,
    {
        assert(des@.labels[i as int] == des.labels@[i as int]@);
        assert(model::on_sheet(des@.labels[i as int].at));
        let ghost r0 = boxed_v(r@);
        let x = box_label(&des.labels[i]);
        let ghost xv = x@;
        r.push(x);
        assert(boxed_v(r@) =~= r0.push(xv));
        assert(b.take(i + 1) =~= b.take(i as int).push(b[i as int]));
        assert(boxed_v(r@) =~= a + b.take(i + 1));
        i += 1;
    }
    assert(b.take(b.len() as int) =~= b);
    i = 0;
    assert(boxed_v(r@) =~= a + b + c.take(0));
    while i < des.texts.len()
        invariant
            i <= des.texts@.len(),
            des@.ok(),
            c == Seq::new(des@.texts.len(), |i: int| note_box(des@.texts[i])),
            boxed_v(r@) == a + b + c.take(i as int),
            boxed_ok(r@),
        decreases des.texts@.len() - i,
    {
        assert(des@.texts[i as int] == des.texts@[i as int]@);
        assert(model::text_ok(des@.texts[i as int]));
        let ghost r0 = boxed_v(r@);
        let x = box_note(&des.texts[i]);
        let ghost xv = x@;
        r.push(x);
        assert(boxed_v(r@) =~= r0.push(xv));
        assert(c.take(i + 1) =~= c.take(i as int).push(c[i as int]));
        assert(boxed_v(r@) =~= a + b + c.take(i + 1));
        i += 1;
    }
    assert(c.take(c.len() as int) =~= c);
    r
}

// ---------------------------------------------------------------- findings
pub open spec fn body_note(s: SheetV, b: BoxedV) -> Option<Seq<char>> {
    let i = check::area_hit(s.parts, b.area, Some(b.owner), FINE as int, 25_000 * FINE, 0);
    if i < s.parts.len() {
        Some(
            b.desc + " at "@ + check::point_text(b.at) + " overlaps the body of "@ + s.parts[i].id
                + " - move/rotate it"@,
        )
    } else {
        None
    }
}

pub open spec fn body_notes(s: SheetV, bs: Seq<BoxedV>, v: Seq<Seq<char>>, n: int) -> Seq<Seq<char>>
    decreases n,
{
    if n <= 0 {
        v
    } else {
        pinref::with_error(body_notes(s, bs, v, n - 1), body_note(s, bs[n - 1]))
    }
}

/// Notes on texts that overlap, and the pairs of texts that have been noted.
pub struct PairsV {
    pub notes: Seq<Seq<char>>,
    pub seen: Seq<(Seq<char>, Seq<char>)>,
}

pub open spec fn pair_note(a: BoxedV, b: BoxedV) -> Seq<char> {
    a.desc + " at "@ + check::point_text(a.at) + " overlaps "@ + b.desc + " at "@
        + check::point_text(b.at) + " - texts must not overlap"@
}

/// Texts of different owners that overlap are noted once per pair of descriptions.
pub open spec fn pair_step(p: PairsV, a: BoxedV, b: BoxedV) -> PairsV {
    if a.owner != b.owner && check::overlapping(a.area, b.area, 30_000 * FINE) && !p.seen.contains(
        (a.desc, b.desc),
    ) {
        PairsV { notes: p.notes.push(pair_note(a, b)), seen: p.seen.push((a.desc, b.desc)) }
    } else {
        p
    }
}

pub open spec fn row_pairs(bs: Seq<BoxedV>, i: int, p: PairsV, n: int) -> PairsV
    decreases n - i,
{
    if n <= i + 1 {
        p
    } else {
        pair_step(row_pairs(bs, i, p, n - 1), bs[i], bs[n - 1])
    }
}

pub open spec fn all_pairs(bs: Seq<BoxedV>, p: PairsV, n: int) -> PairsV
    decreases n,
{
    if n <= 0 {
        p
    } else {
        row_pairs(bs, n - 1, all_pairs(bs, p, n - 1), bs.len() as int)
    }
}

/// A part has a pin at a point.
pub open spec fn has_pin(pins: compile::PinsAtV, owner: Seq<char>, k: Key) -> bool {
    exists|i: int, j: int|
        0 <= i < pins.len() && (#[trigger] pins[i]).0 == k && 0 <= j < pins[i].1.len() && (
        #[trigger] pins[i].1[j]).owner == owner
}

/// A wire that belongs to a text: it ends at its anchor or at a pin of its owner.
pub open spec fn own_wire(s: SheetV, b: BoxedV, e: (Key, Key)) -> bool {
    let k = compile::key_spec(b.at);
    e.0 == k || e.1 == k || has_pin(s.pins, b.owner, e.0) || has_pin(s.pins, b.owner, e.1)
}

/// The first foreign wire from `i` on that runs through a text.
pub open spec fn wire_hit(s: SheetV, b: BoxedV, i: int) -> int
    decreases s.segs.len() - i,
{
    if i < 0 || i >= s.segs.len() {
        s.segs.len() as int
    } else if !own_wire(s, b, s.segs[i]) && check::crossing(
        s.segs[i].0,
        s.segs[i].1,
        b.area,
        FINE as int,
        20_000 * FINE,
    ) {
        i
    } else {
        wire_hit(s, b, i + 1)
    }
}

pub struct ThroughV {
    pub notes: Seq<Seq<char>>,
    pub count: int,
}

pub open spec fn through_text(s: SheetV, b: BoxedV, e: (Key, Key)) -> Seq<char> {
    "wire "@ + check::point_text(e.0.point()) + "-"@ + check::point_text(e.1.point())
        + " runs through "@ + b.desc + " at "@ + check::point_text(b.at)
}

/// Texts that foreign wires run through; the first twelve are noted.
pub open spec fn through_texts(s: SheetV, bs: Seq<BoxedV>, v: Seq<Seq<char>>, n: int) -> ThroughV
    decreases n,
{
    if n <= 0 {
        ThroughV { notes: v, count: 0 }
    } else {
        let t = through_texts(s, bs, v, n - 1);
        let i = wire_hit(s, bs[n - 1], 0);
        if i < s.segs.len() {
            ThroughV {
                notes: if t.count < 12 {
                    t.notes.push(through_text(s, bs[n - 1], s.segs[i]))
                } else {
                    t.notes
                },
                count: t.count + 1,
            }
        } else {
            t
        }
    }
}

/// How many of the segments between `i` and `n` segment `i` crosses.
pub open spec fn row_crossings(segs: Seq<(Key, Key)>, i: int, n: int) -> int
    decreases n - i,
{
    if n <= i + 1 {
        0
    } else {
        row_crossings(segs, i, n - 1) + (if check::cross_inside(
            segs[i].0,
            segs[i].1,
            segs[n - 1].0,
            segs[n - 1].1,
        ) {
            1int
        } else {
            0
        })
    }
}

pub open spec fn crossings(segs: Seq<(Key, Key)>, n: int) -> int
    decreases n,
{
    if n <= 0 {
        0
    } else {
        crossings(segs, n - 1) + row_crossings(segs, n - 1, segs.len() as int)
    }
}

pub open spec fn crossing_note(segs: Seq<(Key, Key)>) -> Option<Seq<char>> {
    let c = crossings(segs, segs.len() as int);
    if c >= 3 {
        Some(
            text::digits(c as nat)
                + " wire-wire crossings without connection - reduce by rerouting or using net labels"@,
        )
    } else {
        None
    }
}

fn knows_pair(v: &Vec<(String, String)>, a: &str, b: &str) -> (r: bool)
    ensures
        r == pair_views(v@).contains((a@, b@)),
{
    let ghost pv = pair_views(v@);
    let mut i: usize = 0;
    while i < v.len()
        invariant
            i <= v@.len(),
            pv == pair_views(v@),
            forall|j: int| 0 <= j < i ==> #[trigger] pv[j] != (a@, b@),
        decreases v@.len() - i,
    {
        assert(pv[i as int] == (v@[i as int].0@, v@[i as int].1@));
        if same(v[i].0.as_str(), a) && same(v[i].1.as_str(), b) {
            assert(pv[i as int] == (a@, b@));
            return true;
        }
        i += 1;
    }
    false
}

pub open spec fn pair_views(v: Seq<(String, String)>) -> Seq<(Seq<char>, Seq<char>)> {
    Seq::new(v.len(), |i: int| (v[i].0@, v[i].1@))
}

fn check_pairs(bs: &Vec<Boxed>, out: &mut Vec<String>)
    requires
        boxed_ok(bs@),
    ensures
        text::views(final(out)@) == all_pairs(
            boxed_v(bs@),
            (PairsV { notes: text::views(old(out)@), seen: Seq::empty() }),
            bs@.len() as int,
        ).notes,
{
    let ghost bv = boxed_v(bs@);
    let ghost p0 = PairsV { notes: text::views(out@), seen: Seq::empty() };
    let mut seen: Vec<(String, String)> = Vec::new();
    let mut i: usize = 0;
    assert(pair_views(seen@) =~= Seq::empty());
    while i < bs.len()
        invariant
            i <= bs@.len(),
            boxed_ok(bs@),
            bv == boxed_v(bs@),
            text::views(out@) == all_pairs(bv, p0, i as int).notes,
            pair_views(seen@) == all_pairs(bv, p0, i as int).seen,
        decreases bs@.len() - i,
    {
        let ghost p1 = all_pairs(bv, p0, i as int);
        let mut j: usize = i + 1;
        while j < bs.len()
            invariant
                i < j,
                j <= bs@.len(),
                boxed_ok(bs@),
                bv == boxed_v(bs@),
                text::views(out@) == row_pairs(bv, i as int, p1, j as int).notes,
                pair_views(seen@) == row_pairs(bv, i as int, p1, j as int).seen,
            decreases bs@.len() - j,
        {
            assert(bv[i as int] == bs@[i as int]@ && bv[j as int] == bs@[j as int]@);
            assert(bs@[i as int].wf() && bs@[j as int].wf());
            let a = &bs[i];
            let b = &bs[j];
            let ghost o1 = text::views(out@);
            let ghost s1 = pair_views(seen@);
            if !same(a.owner.as_str(), b.owner.as_str()) && overlap(
                &a.area,
                &b.area,
                30_000 * FINE,
            ) && !knows_pair(&seen, a.desc.as_str(), b.desc.as_str()) {
                let p = fmt_pt(a.at);
                let q = fmt_pt(b.at);
                let t = Line::of(a.desc.as_str()).add(" at ").add(p.as_str()).add(
                    " overlaps ",
                ).add(b.desc.as_str()).add(" at ").add(q.as_str()).add(
                    " - texts must not overlap",
                ).done();
                out.push(t);
                seen.push((a.desc.clone(), b.desc.clone()));
                assert(text::views(out@) =~= o1.push(pair_note(a@, b@)));
                assert(pair_views(seen@) =~= s1.push((a.desc@, b.desc@)));
            }
            j += 1;
        }
        i += 1;
    }
}

impl Sheet {
    fn check_bodies(&self, des: &Design, bs: &Vec<Boxed>, out: &mut Vec<String>)
        requires
            self.wf(*des),
            boxed_ok(bs@),
        ensures
            text::views(final(out)@) == body_notes(
                self.sees(*des),
                boxed_v(bs@),
                text::views(old(out)@),
                bs@.len() as int,
            ),
    {
        let ghost s = self.sees(*des);
        let ghost bv = boxed_v(bs@);
        let ghost o0 = text::views(out@);
        let mut i: usize = 0;
        while i < bs.len()
            invariant
                i <= bs@.len(),
                self.wf(*des),
                boxed_ok(bs@),
                bv == boxed_v(bs@),
                s == self.sees(*des),
                text::views(out@) == body_notes(s, bv, o0, i as int),
            decreases bs@.len() - i,
        {
            assert(bv[i as int] == bs@[i as int]@);
            assert(bs@[i as int].wf());
            let b = &bs[i];
            let j: usize = self.find_cover(
                &b.area,
                Some(b.owner.as_str()),
                FINE,
                25_000 * FINE,
            );
            if j < self.parts.len() {
                assert(s.parts[j as int] == self.parts@[j as int]@);
                let p = fmt_pt(b.at);
                let t = Line::of(b.desc.as_str()).add(" at ").add(p.as_str()).add(
                    " overlaps the body of ",
                ).add(self.parts[j].id.as_str()).add(" - move/rotate it").done();
                note(out, Some(t));
            }
            i += 1;
        }
    }

    fn owns_pin(&self, owner: &str, k: Key) -> (r: bool)
        ensures
            r == has_pin(compile::pins_at_v(self.pins@), owner@, k),
    {
        let ghost pv = compile::pins_at_v(self.pins@);
        let mut i: usize = 0;
        while i < self.pins.len()
            invariant
                i <= self.pins@.len(),
                pv == compile::pins_at_v(self.pins@),
                forall|a: int, b: int|
                    0 <= a < i && (#[trigger] pv[a]).0 == k && 0 <= b < pv[a].1.len() ==> (
                    #[trigger] pv[a].1[b]).owner != owner@,
            decreases self.pins@.len() - i,
        {
            assert(pv[i as int] == (
                self.pins@[i as int].0,
                compile::refs_v(self.pins@[i as int].1@),
            ));
            if self.pins[i].0 == k {
                let refs = &self.pins[i].1;
                let mut j: usize = 0;
                while j < refs.len()
                    invariant
                        i < self.pins@.len(),
                        j <= refs@.len(),
                        pv == compile::pins_at_v(self.pins@),
                        *refs == self.pins@[i as int].1,
                        pv[i as int].0 == k,
                        pv[i as int].1 == compile::refs_v(refs@),
                        forall|b: int| 0 <= b < j ==> (#[trigger] pv[i as int].1[b]).owner != owner@,
                    decreases refs@.len() - j,
                {
                    assert(pv[i as int].1[j as int] == refs@[j as int]@);
                    if same(refs[j].owner.as_str(), owner) {
                        assert(pv[i as int].0 == k && pv[i as int].1[j as int].owner == owner@);
                        return true;
                    }
                    j += 1;
                }
            }
            i += 1;
        }
        assert(!has_pin(pv, owner@, k));
        false
    }

    fn find_wire(&self, des: &Design, b: &Boxed) -> (r: usize)
        requires
            self.wf(*des),
            b.wf(),
        ensures
            r == wire_hit(self.sees(*des), b@, 0),
            r <= self.segs@.len(),
    {
        let ghost s = self.sees(*des);
        let k = Key::around(b.at);
        let mut i: usize = 0;
        while i < self.segs.len()
            invariant
                i <= self.segs@.len(),
                self.wf(*des),
                b.wf(),
                s == self.sees(*des),
                k == compile::key_spec(b.at),
                wire_hit(s, b@, 0) == wire_hit(s, b@, i as int),
            decreases self.segs@.len() - i,
        {
            let e = self.segs[i];
            assert(compile::key_ok(self.segs@[i as int].0) && compile::key_ok(
                self.segs@[i as int].1,
            ));
            let at_anchor = e.0 == k || e.1 == k;
            let first = self.owns_pin(b.owner.as_str(), e.0);
            let own = at_anchor || first || self.owns_pin(b.owner.as_str(), e.1);
            if !own && seg_crosses_box(e.0, e.1, &b.area, FINE, 20_000 * FINE) {
                return i;
            }
            i += 1;
        }
        i
    }

    fn check_wires_through(&self, des: &Design, bs: &Vec<Boxed>, out: &mut Vec<String>)
        requires
            self.wf(*des),
            boxed_ok(bs@),
        ensures
            text::views(final(out)@) == through_texts(
                self.sees(*des),
                boxed_v(bs@),
                text::views(old(out)@),
                bs@.len() as int,
            ).notes,
    {
        let ghost s = self.sees(*des);
        let ghost bv = boxed_v(bs@);
        let ghost o0 = text::views(out@);
        let mut n: usize = 0;
        let mut i: usize = 0;
        while i < bs.len()
            invariant
                i <= bs@.len(),
                n <= i,
                self.wf(*des),
                boxed_ok(bs@),
                bv == boxed_v(bs@),
                s == self.sees(*des),
                text::views(out@) == through_texts(s, bv, o0, i as int).notes,
                n == through_texts(s, bv, o0, i as int).count,
            decreases bs@.len() - i,
        {
            assert(bv[i as int] == bs@[i as int]@);
            assert(bs@[i as int].wf());
            let b = &bs[i];
            let j: usize = self.find_wire(des, b);
            if j < self.segs.len() {
                let e = self.segs[j];
                assert(compile::key_ok(self.segs@[j as int].0) && compile::key_ok(
                    self.segs@[j as int].1,
                ));
                if n < 12 {
                    let p = fmt_key(e.0);
                    let q = fmt_key(e.1);
                    let w = fmt_pt(b.at);
                    let t = Line::of("wire ").add(p.as_str()).add("-").add(q.as_str()).add(
                        " runs through ",
                    ).add(b.desc.as_str()).add(" at ").add(w.as_str()).done();
                    note(out, Some(t));
                }
                n += 1;
            }
            i += 1;
        }
    }

    fn check_crossings(&self, out: &mut Vec<String>)
        requires
            compile::seg_keys_ok(self.segs@),
        ensures
            text::views(final(out)@) == pinref::with_error(
                text::views(old(out)@),
                crossing_note(self.segs@),
            ),
    {
        let ghost segs = self.segs@;
        let mut c: u128 = 0;
        let mut i: usize = 0;
        let m: usize = self.segs.len();
        while i < m
            invariant
                i <= m,
                m == self.segs@.len(),
                segs == self.segs@,
                compile::seg_keys_ok(segs),
                c == crossings(segs, i as int),
                c <= i as u128 * m as u128,
            decreases m - i,
        {
            let ghost c0 = c as int;
            assert(i as int * m as int + m as int <= 0xffff_ffff_ffff_ffff * 0xffff_ffff_ffff_ffffint)
                by (nonlinear_arith)
                requires
                    i < m <= 0xffff_ffff_ffff_ffff,
            ;
            let mut row: u128 = 0;
            let mut j: usize = i + 1;
            while j < m
                invariant
                    i < j <= m,
                    m == self.segs@.len(),
                    segs == self.segs@,
                    compile::seg_keys_ok(segs),
                    row == row_crossings(segs, i as int, j as int),
                    row <= j,
                decreases m - j,
            {
                assert(compile::key_ok(segs[i as int].0) && compile::key_ok(segs[i as int].1));
                assert(compile::key_ok(segs[j as int].0) && compile::key_ok(segs[j as int].1));
                if segments_cross(
                    self.segs[i].0,
                    self.segs[i].1,
                    self.segs[j].0,
                    self.segs[j].1,
                ) {
                    row += 1;
                }
                j += 1;
            }
            assert((i + 1) as int * m as int == i as int * m as int + m as int) by (nonlinear_arith);
            c += row;
            i += 1;
        }
        if c >= 3 {
            let d = text::decimal_u128(c);
            let t = Line::of(d.as_str()).add(
                " wire-wire crossings without connection - reduce by rerouting or using net labels",
            ).done();
            note(out, Some(t));
        }
    }

    /// Looks at all texts: notes overlaps as issues, and wires through texts and crossings as
    /// warnings.
    pub(crate) fn check_texts(
        &self,
        des: &Design,
        items: &Vec<TextItem>,
        issues: &mut Vec<String>,
        warnings: &mut Vec<String>,
    )
        requires
            self.wf(*des),
            compile::items_ok(items@),
        ensures
            text::views(final(issues)@) == text_issues(
                self.sees(*des),
                compile::items_v(items@),
                text::views(old(issues)@),
            ),
            text::views(final(warnings)@) == text_warnings(
                self.sees(*des),
                compile::items_v(items@),
                text::views(old(warnings)@),
            ),
    {
        let bs = all_boxes(items, des);
        let ghost bv = boxed_v(bs@);
        assert(bv.len() == bs@.len());
        self.check_bodies(des, &bs, issues);
        check_pairs(&bs, issues);
        self.check_wires_through(des, &bs, warnings);
        self.check_crossings(warnings);
    }
}

/// Texts on bodies and on each other.
pub open spec fn text_issues(s: SheetV, items: Seq<TextItemV>, v: Seq<Seq<char>>) -> Seq<Seq<char>> {
    let bs = text_boxes(items, s.des.labels, s.des.texts);
    let n = bs.len() as int;
    all_pairs(bs, PairsV { notes: body_notes(s, bs, v, n), seen: Seq::empty() }, n).notes
}

/// Wires through texts and wires across wires.
pub open spec fn text_warnings(s: SheetV, items: Seq<TextItemV>, v: Seq<Seq<char>>) -> Seq<
    Seq<char>,
> {
    let bs = text_boxes(items, s.des.labels, s.des.texts);
    pinref::with_error(
        through_texts(s, bs, v, bs.len() as int).notes,
        crossing_note(s.segs),
    )
}

} // verus!
