//! Geometry of one block: the accumulator for parts, power symbols, wires, labels and texts, the
//! drawing of pin connections, and the packing of blocks onto a sheet.
use crate::geom;
use crate::geom::{
    max_i, min_i, overlap, round_quotient, BBox, Dir, Mirror, Pt, GRID,
};
use crate::order_map;
use crate::order_map::OrderMap;
use crate::symlib;
use crate::symlib::{
    mirror_of, pin_point, turn_box, turned_dir, Pin, SymbolIndex, SymbolInfo, TEXT_MAX,
};
use crate::text;
use crate::text::{
    chars_of, concat3, ends_with, is_whitespace, join, same, split, starts_with, upper,
};
use std::sync::Arc;
pub use crate::flow::raw_boxes;
pub use crate::pack::pack_blocks_ordered;
pub use crate::pins::{connect_pins, flag_next_to};
use vstd::prelude::*;

verus! {

/// Label stub length.
pub const STUB: i64 = 381_000;

/// Power stub length.
pub const PSTUB: i64 = 254_000;

/// Horizontal gap between blocks.
pub const BLOCK_GAP_X: i64 = 1_016_000;

/// Vertical gap between blocks.
pub const BLOCK_GAP_Y: i64 = 1_016_000;

/// Why a layout could not be made.
#[derive(Debug, Clone)]
pub struct LayoutError(pub String);

/// Usable area of a paper size and the corner of its title block.
#[derive(Clone, Copy, Debug, PartialEq, Eq, Structural)]
pub struct Paper {
    pub xmax: i64,
    pub ymax: i64,
    pub tbx: i64,
    pub tby: i64,
}

pub open spec fn paper_grid(xmax: int, ymax: int, tbx: int, tby: int) -> Paper {
    Paper {
        xmax: (xmax * GRID) as i64,
        ymax: (ymax * GRID) as i64,
        tbx: (tbx * GRID) as i64,
        tby: (tby * GRID) as i64,
    }
}

pub open spec fn paper_spec(name: Seq<char>) -> Option<Paper> {
    if name == "A5"@ {
        Some(paper_grid(157, 96, 70, 80))
    } else if name == "A4"@ {
        Some(paper_grid(226, 145, 140, 126))
    } else if name == "A3"@ {
        Some(paper_grid(322, 214, 232, 194))
    } else if name == "A2"@ {
        Some(paper_grid(459, 311, 370, 292))
    } else {
        None
    }
}

/// The usable area of a paper size; `None` for a size that is not listed.
pub fn paper(name: &str) -> (r: Option<Paper>)
    ensures
        r == paper_spec(name@),
{
    if same(name, "A5") {
        Some(Paper { xmax: 157 * GRID, ymax: 96 * GRID, tbx: 70 * GRID, tby: 80 * GRID })
    } else if same(name, "A4") {
        Some(Paper { xmax: 226 * GRID, ymax: 145 * GRID, tbx: 140 * GRID, tby: 126 * GRID })
    } else if same(name, "A3") {
        Some(Paper { xmax: 322 * GRID, ymax: 214 * GRID, tbx: 232 * GRID, tby: 194 * GRID })
    } else if same(name, "A2") {
        Some(Paper { xmax: 459 * GRID, ymax: 311 * GRID, tbx: 370 * GRID, tby: 292 * GRID })
    } else {
        None
    }
}

pub open spec fn stands_upright(lib: Seq<char>) -> bool {
    ||| lib == "Device:R"@
    ||| lib == "Device:C"@
    ||| lib == "Device:C_Polarized"@
    ||| lib == "Device:L"@
    ||| lib == "Device:Fuse"@
    ||| lib == "Device:Ferrite_Bead"@
    ||| lib == "Device:R_Small"@
    ||| lib == "Device:C_Small"@
    ||| lib == "Device:Polyfuse"@
    ||| lib == "Device:Thermistor"@
    ||| lib == "Device:Varistor"@
}

/// The rotation that lays a known two-pin part along a row; `None` for any other part.
pub fn two_pin_horizontal_rot(lib: &str) -> (r: Option<i32>)
    ensures
        r == (if stands_upright(lib@) {
            Some(90i32)
        } else if lib@ == "Device:Jumper"@ {
            Some(0i32)
        } else {
            None
        }),
{
    proof {
        reveal_strlit("Device:Jumper");
        reveal_strlit("Device:R");
        reveal_strlit("Device:C");
        reveal_strlit("Device:L");
        reveal_strlit("Device:C_Polarized");
        reveal_strlit("Device:Fuse");
        reveal_strlit("Device:Ferrite_Bead");
        reveal_strlit("Device:R_Small");
        reveal_strlit("Device:C_Small");
        reveal_strlit("Device:Polyfuse");
        reveal_strlit("Device:Thermistor");
        reveal_strlit("Device:Varistor");
    }
    if same(lib, "Device:R") || same(lib, "Device:C") || same(lib, "Device:C_Polarized") || same(
        lib,
        "Device:L",
    ) || same(lib, "Device:Fuse") || same(lib, "Device:Ferrite_Bead") || same(lib, "Device:R_Small")
        || same(lib, "Device:C_Small") || same(lib, "Device:Polyfuse") || same(
        lib,
        "Device:Thermistor",
    ) || same(lib, "Device:Varistor") {
        Some(90)
    } else if same(lib, "Device:Jumper") {
        Some(0)
    } else {
        None
    }
}

/// Outward direction of a pin on an instance with the given rotation and mirroring.
pub fn dir_of(pin: &Pin, rot: i32, mirror: &str) -> (d: Dir)
    ensures
        d == symlib::pin_dir_spec(*pin, rot as int, symlib::mirror_spec(mirror@)),
        geom::is_dir(d),
{
    turned_dir(pin.angle, rot, mirror_of(mirror))
}

pub open spec fn rot_label_spec(d: Dir) -> int {
    if d == (1i32, 0i32) {
        0
    } else if d == (-1i32, 0i32) {
        180
    } else if d == (0i32, -1i32) {
        90
    } else {
        270
    }
}

/// The rotation of a label whose stub points in direction `d`.
pub fn rot_label(d: Dir) -> (r: i32)
    ensures
        r == rot_label_spec(d),
{
    if d.0 == 1 && d.1 == 0 {
        0
    } else if d.0 == -1 && d.1 == 0 {
        180
    } else if d.0 == 0 && d.1 == -1 {
        90
    } else {
        270
    }
}

/// What a build remembers between blocks: symbols embedded in an edited file, and for each net
/// that wants a PWR_FLAG whether one was attached next to one of its power symbols.
#[derive(Clone, Debug)]
pub struct Session {
    pub extra: OrderMap<Arc<SymbolInfo>>,
    pub flags: OrderMap<bool>,
}

impl Session {
    pub open spec fn wf(&self) -> bool {
        self.extra.wf() && self.flags.wf()
    }

    pub fn new() -> (s: Session)
        ensures
            s.wf(),
            s.extra.names().len() == 0,
            s.flags.names().len() == 0,
    {
        Session { extra: OrderMap::new(), flags: OrderMap::new() }
    }
}

/// The symbol embedded under a library id.
pub fn extra_infos_get(s: &Session, lib: &str) -> (r: Option<Arc<SymbolInfo>>)
    requires
        s.wf(),
    ensures
        match r {
            Some(i) => s.extra.found(lib@) == Some(i),
            None => s.extra.found(lib@) is None,
        },
{
    match s.extra.get(lib) {
        Some(i) => Some(i.clone()),
        None => None,
    }
}

/// Embeds a symbol under a library id, in place of an earlier one.
pub fn extra_infos_set(s: &mut Session, lib: &str, info: Arc<SymbolInfo>)
    requires
        old(s).wf(),
    ensures
        final(s).wf(),
        final(s).flags == old(s).flags,
        final(s).extra.found(lib@) == Some(info),
        forall|q: Seq<char>|
            q != lib@ ==> #[trigger] final(s).extra.found(q) == old(s).extra.found(q),
{
    let ghost before = s.extra;
    s.extra.insert(lib, info);
    proof {
        order_map::insert_then_get(before, s.extra, lib@, info);
    }
}

/// Forgets every embedded symbol.
pub fn extra_infos_clear(s: &mut Session)
    requires
        old(s).wf(),
    ensures
        final(s).wf(),
        final(s).flags == old(s).flags,
        forall|q: Seq<char>| #[trigger] final(s).extra.found(q) is None,
{
    s.extra = OrderMap::new();
}

/// Whether a PWR_FLAG was attached next to a power symbol of the net; `None` where none is wanted.
pub fn flag_at_symbol_get(s: &Session, net: &str) -> (r: Option<bool>)
    requires
        s.wf(),
    ensures
        r == s.flags.found(net@),
{
    match s.flags.get(net) {
        Some(b) => Some(*b),
        None => None,
    }
}

pub fn flag_at_symbol_set(s: &mut Session, net: &str, v: bool)
    requires
        old(s).wf(),
    ensures
        final(s).wf(),
        final(s).extra == old(s).extra,
        order_map::plain_pairs(final(s).flags) == order_map::put(
            order_map::plain_pairs(old(s).flags),
            net@,
            v,
        ),
        final(s).flags.found(net@) == Some(v),
        forall|q: Seq<char>|
            q != net@ ==> #[trigger] final(s).flags.found(q) == old(s).flags.found(q),
{
    let ghost before = s.flags;
    s.flags.insert(net, v);
    proof {
        order_map::insert_then_get(before, s.flags, net@, v);
        order_map::lemma_plain_put(before, s.flags, net@, v);
    }
}

pub fn flag_at_symbol_clear(s: &mut Session)
    requires
        old(s).wf(),
    ensures
        final(s).wf(),
        final(s).extra == old(s).extra,
        order_map::plain_pairs(final(s).flags) == Seq::<(Seq<char>, bool)>::empty(),
        forall|q: Seq<char>| #[trigger] final(s).flags.found(q) is None,
{
    s.flags = OrderMap::new();
    assert(order_map::plain_pairs(s.flags) =~= Seq::<(Seq<char>, bool)>::empty());
}

pub open spec fn unknown_symbol(lib: Seq<char>) -> Seq<char> {
    "unknown symbol '"@ + lib + "' - use search_symbols to find the right lib id"@
}

/// Symbol lookup: embedded symbols first, then the stock index.
pub fn info(s: &Session, index: &SymbolIndex, lib: &str) -> (r: Result<
    Arc<SymbolInfo>,
    LayoutError,
>)
    requires
        s.wf(),
    ensures
        match r {
            Ok(i) => s.extra.found(lib@) == Some(i) || (s.extra.found(lib@) is None && index.found(
                lib@,
            ) == Some(i)),
            Err(e) => s.extra.found(lib@) is None && index.found(lib@) is None && e.0@
                == unknown_symbol(lib@),
        },
        library_ok(*s, *index) && r is Ok ==> r->Ok_0.wf(),
{
    proof {
        crate::order_map::lemma_first_of(s.extra.names(), lib@);
    }
    match s.extra.get(lib) {
        Some(i) => Ok(i.clone()),
        None => match index.get(lib) {
            Some(i) => Ok(i.clone()),
            None => Err(
                LayoutError(
                    concat3("unknown symbol '", lib, "' - use search_symbols to find the right lib id"),
                ),
            ),
        },
    }
}

/// Names of ground nets, by the capitals of the name.
pub open spec fn gnd_name(u: Seq<char>) -> bool {
    ||| text::ends(u, "GND"@)
    ||| text::starts(u, "GND"@)
    ||| u == "VSS"@
    ||| u == "VSSA"@
    ||| u == "AGND"@
    ||| u == "DGND"@
    ||| u == "PGND"@
    ||| u == "EARTH"@
    ||| u == "VEE"@
    ||| u == "0V"@
}

pub open spec fn gnd_spec(net: Seq<char>) -> bool {
    gnd_name(text::uppercase(net))
}

/// Whether a net is a ground net, by its name.
pub fn is_gnd(net: &str) -> (r: bool)
    ensures
        r == gnd_spec(net@),
        vstd::utf8::is_ascii_chars(net@) ==> r == gnd_name(text::ascii_uppercase(net@)),
{
    let n = upper(net);
    let u = n.as_str();
    ends_with(u, "GND") || starts_with(u, "GND") || same(u, "VSS") || same(u, "VSSA") || same(
        u,
        "AGND",
    ) || same(u, "DGND") || same(u, "PGND") || same(u, "EARTH") || same(u, "VEE") || same(u, "0V")
}

/// A length rounded to a whole number of double grid steps, a tie to the multiple of four steps.
pub open spec fn snap_even_spec(v: int) -> int {
    geom::nearest_multiple(v, 2 * GRID)
}

pub proof fn lemma_snap_even(v: int)
    ensures
        v - GRID <= snap_even_spec(v) <= v + GRID,
{
    let q = v / 254_000;
    assert(v == 254_000 * q + v % 254_000);
}

pub fn snap_even(v: i64) -> (r: i64)
    requires
        geom::in_range(v as int),
    ensures
        r == snap_even_spec(v as int),
        v - GRID <= r <= v + GRID,
{
    proof {
        lemma_snap_even(v as int);
    }
    let q: i64 = round_quotient(v, 2 * GRID);
    q * (2 * GRID)
}

/// Whether two boxes overlap with margin `m`.
pub fn overlap_box(a: BBox, b: BBox, m: i64) -> (r: bool)
    requires
        geom::box_ok(a),
        geom::box_ok(b),
        geom::in_range(m as int),
    ensures
        r == geom::overlap_spec(a, b, m as int),
{
    overlap(&a, &b, m)
}

/// Whether two boxes share area.
pub fn rects_overlap(a: BBox, b: BBox) -> (r: bool)
    ensures
        r == geom::overlap_spec(a, b, 0),
{
    !(a.x1 <= b.x0 || b.x1 <= a.x0 || a.y1 <= b.y0 || b.y1 <= a.y0)
}

pub open spec fn power_rot_spec(net: Seq<char>, d: Dir) -> int {
    let up = !gnd_spec(net);
    if d == (0i32, -1i32) {
        if up { 0 } else { 180 }
    } else if d == (0i32, 1i32) {
        if up { 180 } else { 0 }
    } else if d == (-1i32, 0i32) {
        if up { 270 } else { 90 }
    } else {
        if up { 90 } else { 270 }
    }
}

/// Rotation of a power symbol attached to a stub that points in direction `d`.
pub fn power_rot(net: &str, d: Dir) -> (r: i32)
    ensures
        r == power_rot_spec(net@, d),
        vstd::utf8::is_ascii_chars(net@) ==> gnd_spec(net@) == gnd_name(
            text::ascii_uppercase(net@),
        ),
{
    let up = !is_gnd(net);
    if d.0 == 0 && d.1 == -1 {
        if up { 0 } else { 180 }
    } else if d.0 == 0 && d.1 == 1 {
        if up { 180 } else { 0 }
    } else if d.0 == -1 && d.1 == 0 {
        if up { 270 } else { 90 }
    } else {
        if up { 90 } else { 270 }
    }
}

/// Words of `s` from position `i` on: the longest runs without white space. `cur` is the run under way.
pub open spec fn words_from(s: Seq<char>, i: int, cur: Seq<char>) -> Seq<Seq<char>>
    decreases s.len() - i,
{
    if i < 0 || i >= s.len() {
        if cur.len() == 0 { Seq::empty() } else { seq![cur] }
    } else if text::is_blank(s[i]) {
        if cur.len() == 0 {
            words_from(s, i + 1, cur)
        } else {
            seq![cur] + words_from(s, i + 1, Seq::empty())
        }
    } else {
        words_from(s, i + 1, cur.push(s[i]))
    }
}

/// One word set after the line `cur`: appended where it fits in `width`, on a fresh line otherwise.
/// A word longer than a line fills up the line under way and is cut into lines of `width`.
pub open spec fn wrap_word(
    lines: Seq<Seq<char>>,
    cur: Seq<char>,
    word: Seq<char>,
    width: int,
) -> (Seq<Seq<char>>, Seq<char>)
    decreases word.len(), cur.len(),
{
    let gap = if cur.len() == 0 { 0int } else { 1 };
    if width < 1 || cur.len() + gap + word.len() <= width {
        (lines, if gap == 0 { cur + word } else { cur.push(' ') + word })
    } else if cur.len() == 0 {
        wrap_word(lines.push(word.take(width)), cur, word.skip(width), width)
    } else if word.len() > width && cur.len() < width {
        let k = width - cur.len() - 1;
        wrap_word(
            lines.push(cur.push(' ') + word.take(k)),
            Seq::empty(),
            word.skip(k),
            width,
        )
    } else {
        wrap_word(lines.push(cur), Seq::empty(), word, width)
    }
}

pub open spec fn wrap_words(
    words: Seq<Seq<char>>,
    i: int,
    lines: Seq<Seq<char>>,
    cur: Seq<char>,
    width: int,
) -> Seq<Seq<char>>
    decreases words.len() - i,
{
    if i < 0 || i >= words.len() {
        if cur.len() == 0 { lines } else { lines.push(cur) }
    } else {
        let r = wrap_word(lines, cur, words[i], width);
        wrap_words(words, i + 1, r.0, r.1, width)
    }
}

/// The words of a text, greedily set in lines of at most `width` characters.
pub open spec fn filled(s: Seq<char>, width: int) -> Seq<char> {
    text::joined(
        wrap_words(words_from(s, 0, Seq::empty()), 0, Seq::empty(), Seq::empty(), width),
        "\n"@,
    )
}

pub(crate) fn words(s: &str) -> (r: Vec<String>)
    ensures
        text::views(r@) == words_from(s@, 0, Seq::empty()),
{
    let v = chars_of(s);
    let mut r: Vec<String> = Vec::new();
    let mut cur = String::new();
    let mut i: usize = 0;
    while i < v.len()
        invariant
            i <= v.len(),
            v@ == s@,
            words_from(s@, 0, Seq::empty()) == text::views(r@) + words_from(s@, i as int, cur@),
        decreases v.len() - i,
    {
        if is_whitespace(v[i]) {
            if !cur.as_str().is_empty() {
                let ghost r0 = r@;
                let ghost c0 = cur@;
                r.push(cur);
                cur = String::new();
                proof {
                    assert(text::views(r@) =~= text::views(r0).push(c0));
                    assert(text::views(r@) + words_from(s@, i + 1, Seq::empty()) =~= text::views(r0)
                        + (seq![c0] + words_from(s@, i + 1, Seq::empty())));
                }
            } else {
                assert(cur@ =~= Seq::empty());
            }
        } else {
            cur.push(v[i]);
        }
        i += 1;
    }
    if !cur.as_str().is_empty() {
        let ghost r0 = r@;
        let ghost c0 = cur@;
        r.push(cur);
        assert(text::views(r@) =~= text::views(r0) + seq![c0]);
    } else {
        assert(text::views(r@) + Seq::<Seq<char>>::empty() =~= text::views(r@));
    }
    r
}

/// Greedy word wrap: the words of `text` in lines of at most `width` characters.
pub fn fill(text: &str, width: usize) -> (r: String)
    requires
        width >= 1,
    ensures
        r@ == filled(text@, width as int),
{
    let ws = words(text);
    let mut lines: Vec<String> = Vec::new();
    let mut cur = String::new();
    let mut i: usize = 0;
    let ghost all = text::views(ws@);
    proof {
        assert(text::views(lines@) =~= Seq::empty());
    }
    while i < ws.len()
        invariant
            i <= ws.len(),
            width >= 1,
            all == text::views(ws@),
            wrap_words(all, 0, Seq::empty(), Seq::empty(), width as int) == wrap_words(
                all,
                i as int,
                text::views(lines@),
                cur@,
                width as int,
            ),
        decreases ws.len() - i,
    {
        let mut word = ws[i].clone();
        let ghost goal = wrap_word(text::views(lines@), cur@, all[i as int], width as int);
        let mut more = true;
        while more
            invariant
                width >= 1,
                more ==> goal == wrap_word(text::views(lines@), cur@, word@, width as int),
                !more ==> goal == (text::views(lines@), cur@),
            decreases (if more { 1int } else { 0int }), word@.len(), cur@.len(),
        {
            let n: usize = cur.as_str().unicode_len();
            let k: usize = word.as_str().unicode_len();
            let gap: usize = if n == 0 { 0 } else { 1 };
            if k <= width && n <= width - k && gap <= width - k - n {
                if gap == 1 {
                    cur.push(' ');
                }
                cur.append(word.as_str());
                more = false;
            } else if n == 0 {
                let ghost l0 = lines@;
                proof {
                    assert(cur@ =~= Seq::empty());
                }
                let head = word.as_str().substring_char(0, width).to_owned();
                let tail = word.as_str().substring_char(width, k).to_owned();
                proof {
                    assert(head@ =~= word@.take(width as int));
                    assert(tail@ =~= word@.skip(width as int));
                }
                let ghost h0 = head@;
                lines.push(head);
                word = tail;
                assert(text::views(lines@) =~= text::views(l0).push(h0));
            } else if k > width && n < width {
                let ghost l0 = lines@;
                let ghost c0 = cur@;
                let ghost w0 = word@;
                let room: usize = width - n - 1;
                let head = word.as_str().substring_char(0, room).to_owned();
                let tail = word.as_str().substring_char(room, k).to_owned();
                proof {
                    assert(head@ =~= word@.take(room as int));
                    assert(tail@ =~= word@.skip(room as int));
                }
                cur.push(' ');
                cur.append(head.as_str());
                let ghost c1 = cur@;
                lines.push(cur);
                cur = String::new();
                word = tail;
                assert(c1 == c0.push(' ') + w0.take(room as int));
                assert(text::views(lines@) =~= text::views(l0).push(c1));
            } else {
                let ghost l0 = lines@;
                let ghost c0 = cur@;
                lines.push(cur);
                cur = String::new();
                assert(text::views(lines@) =~= text::views(l0).push(c0));
            }
        }
        i += 1;
    }
    if !cur.as_str().is_empty() {
        let ghost l0 = lines@;
        let ghost c0 = cur@;
        lines.push(cur);
        assert(text::views(lines@) =~= text::views(l0).push(c0));
    }
    join(&lines, "\n")
}

/// A part of the drawing.
#[derive(Debug, Clone)]
pub struct PartRec {
    pub id: String,
    pub lib: String,
    pub at: Pt,
    pub rot: i32,
    pub mirror: String,
    pub value: String,
    pub footprint: String,
    pub fields: Vec<(String, String)>,
    pub unit: i32,
    pub dnp: bool,
}

/// A power symbol of the drawing.
#[derive(Debug, Clone)]
pub struct PowerRec {
    pub net: String,
    pub at: Pt,
    pub rot: i32,
}

/// A net label of the drawing; `kind` is `local` or the kind of a hierarchical or global label.
#[derive(Debug, Clone)]
pub struct LabelRec {
    pub text: String,
    pub at: Pt,
    pub rot: i32,
    pub kind: String,
    pub shape: String,
}

/// A free text of the drawing; `size` is the height of its letters.
#[derive(Debug, Clone)]
pub struct TextRec {
    pub text: String,
    pub at: Pt,
    pub size: i64,
    pub bold: bool,
}

/// Raw geometry accumulator, in local coordinates.
#[derive(Debug, Clone)]
pub struct Geo {
    pub parts: Vec<PartRec>,
    pub power: Vec<PowerRec>,
    pub wires: Vec<Vec<Pt>>,
    pub labels: Vec<LabelRec>,
    pub nc: Vec<Pt>,
    pub texts: Vec<TextRec>,
    pub rects: Vec<BBox>,
    /// Extents used for bbox estimation.
    pub boxes: Vec<BBox>,
}

#[verifier::ext_equal]
pub struct PartV {
    pub id: Seq<char>,
    pub lib: Seq<char>,
    pub at: Pt,
    pub rot: int,
    pub mirror: Seq<char>,
    pub value: Seq<char>,
    pub footprint: Seq<char>,
    pub fields: Seq<(Seq<char>, Seq<char>)>,
    pub unit: int,
    pub dnp: bool,
}

#[verifier::ext_equal]
pub struct PowerV {
    pub net: Seq<char>,
    pub at: Pt,
    pub rot: int,
}

#[verifier::ext_equal]
pub struct LabelV {
    pub text: Seq<char>,
    pub at: Pt,
    pub rot: int,
    pub kind: Seq<char>,
    pub shape: Seq<char>,
}

#[verifier::ext_equal]
pub struct TextV {
    pub text: Seq<char>,
    pub at: Pt,
    pub size: int,
    pub bold: bool,
}

/// What a [`Geo`] holds.
#[verifier::ext_equal]
pub struct GeoV {
    pub parts: Seq<PartV>,
    pub power: Seq<PowerV>,
    pub wires: Seq<Seq<Pt>>,
    pub labels: Seq<LabelV>,
    pub nc: Seq<Pt>,
    pub texts: Seq<TextV>,
    pub rects: Seq<BBox>,
    pub boxes: Seq<BBox>,
}

pub open spec fn fields_v(f: Seq<(String, String)>) -> Seq<(Seq<char>, Seq<char>)> {
    Seq::new(f.len(), |i: int| (f[i].0@, f[i].1@))
}

pub open spec fn paths_v(p: Seq<Vec<Pt>>) -> Seq<Seq<Pt>> {
    Seq::new(p.len(), |i: int| p[i]@)
}

impl View for PartRec {
    type V = PartV;

    open spec fn view(&self) -> PartV {
        PartV {
            id: self.id@,
            lib: self.lib@,
            at: self.at,
            rot: self.rot as int,
            mirror: self.mirror@,
            value: self.value@,
            footprint: self.footprint@,
            fields: fields_v(self.fields@),
            unit: self.unit as int,
            dnp: self.dnp,
        }
    }
}

impl View for PowerRec {
    type V = PowerV;

    open spec fn view(&self) -> PowerV {
        PowerV { net: self.net@, at: self.at, rot: self.rot as int }
    }
}

impl View for LabelRec {
    type V = LabelV;

    open spec fn view(&self) -> LabelV {
        LabelV {
            text: self.text@,
            at: self.at,
            rot: self.rot as int,
            kind: self.kind@,
            shape: self.shape@,
        }
    }
}

impl View for TextRec {
    type V = TextV;

    open spec fn view(&self) -> TextV {
        TextV { text: self.text@, at: self.at, size: self.size as int, bold: self.bold }
    }
}

impl View for Geo {
    type V = GeoV;

    open spec fn view(&self) -> GeoV {
        GeoV {
            parts: Seq::new(self.parts@.len(), |i: int| self.parts@[i]@),
            power: Seq::new(self.power@.len(), |i: int| self.power@[i]@),
            wires: paths_v(self.wires@),
            labels: Seq::new(self.labels@.len(), |i: int| self.labels@[i]@),
            nc: self.nc@,
            texts: Seq::new(self.texts@.len(), |i: int| self.texts@[i]@),
            rects: self.rects@,
            boxes: self.boxes@,
        }
    }
}

impl PartRec {
    pub fn dup(&self) -> (r: PartRec)
        ensures
            r@ == self@,
    {
        let mut fields: Vec<(String, String)> = Vec::new();
        let mut i: usize = 0;
        while i < self.fields.len()
            invariant
                i <= self.fields@.len(),
                fields_v(fields@) == fields_v(self.fields@).take(i as int),
            decreases self.fields@.len() - i,
        {
            let ghost f0 = fields@;
            fields.push((self.fields[i].0.clone(), self.fields[i].1.clone()));
            proof {
                assert(fields_v(fields@) =~= fields_v(f0).push(fields_v(self.fields@)[i as int]));
                assert(fields_v(self.fields@).take(i + 1) =~= fields_v(self.fields@).take(
                    i as int,
                ).push(fields_v(self.fields@)[i as int]));
            }
            i += 1;
        }
        assert(fields_v(self.fields@).take(i as int) =~= fields_v(self.fields@));
        PartRec {
            id: self.id.clone(),
            lib: self.lib.clone(),
            at: self.at,
            rot: self.rot,
            mirror: self.mirror.clone(),
            value: self.value.clone(),
            footprint: self.footprint.clone(),
            fields,
            unit: self.unit,
            dnp: self.dnp,
        }
    }
}

impl PowerRec {
    pub fn dup(&self) -> (r: PowerRec)
        ensures
            r@ == self@,
    {
        PowerRec { net: self.net.clone(), at: self.at, rot: self.rot }
    }
}

impl LabelRec {
    pub fn dup(&self) -> (r: LabelRec)
        ensures
            r@ == self@,
    {
        LabelRec {
            text: self.text.clone(),
            at: self.at,
            rot: self.rot,
            kind: self.kind.clone(),
            shape: self.shape.clone(),
        }
    }
}

impl TextRec {
    pub fn dup(&self) -> (r: TextRec)
        ensures
            r@ == self@,
    {
        TextRec { text: self.text.clone(), at: self.at, size: self.size, bold: self.bold }
    }
}

/// The extent of a label at `at`: its text runs from the anchor in the direction of `rot`.
pub open spec fn label_rect_spec(at: Pt, rot: int, w: int) -> BBox {
    let up = 203_200int;
    let down = 38_100int;
    if rot == 0 {
        BBox { x0: at.x, y0: (at.y - up) as i64, x1: (at.x + w) as i64, y1: (at.y + down) as i64 }
    } else if rot == 180 {
        BBox { x0: (at.x - w) as i64, y0: (at.y - up) as i64, x1: at.x, y1: (at.y + down) as i64 }
    } else if rot == 90 {
        BBox { x0: (at.x - up) as i64, y0: (at.y - w) as i64, x1: (at.x + down) as i64, y1: at.y }
    } else {
        BBox { x0: (at.x - up) as i64, y0: at.y, x1: (at.x + down) as i64, y1: (at.y + w) as i64 }
    }
}

pub(crate) fn label_rect(at: Pt, rot: i32, w: i64) -> (b: BBox)
    requires
        symlib::wide_pt(at),
        0 <= w <= 0x100_0000_0000,
    ensures
        b == label_rect_spec(at, rot as int, w as int),
        geom::box_ok(b),
{
    let up: i64 = 203_200;
    let down: i64 = 38_100;
    if rot == 0 {
        BBox { x0: at.x, y0: at.y - up, x1: at.x + w, y1: at.y + down }
    } else if rot == 180 {
        BBox { x0: at.x - w, y0: at.y - up, x1: at.x, y1: at.y + down }
    } else if rot == 90 {
        BBox { x0: at.x - up, y0: at.y - w, x1: at.x + down, y1: at.y }
    } else {
        BBox { x0: at.x - up, y0: at.y, x1: at.x + down, y1: at.y + w }
    }
}

/// Width of `n` letters of ordinary size.
pub open spec fn letters(n: int) -> int {
    120_650 * n
}

pub open spec fn label_box_spec(text: Seq<char>, at: Pt, rot: int, kind: Seq<char>) -> BBox {
    label_rect_spec(
        at,
        rot,
        letters(text.len() as int) + (if kind == "local"@ { 152_400int } else { 444_500 }),
    )
}

/// The extent of a power symbol whose connection point is `at`.
pub open spec fn power_box_spec(net: Seq<char>, at: Pt, rot: int) -> BBox {
    let w = geom::hi(381_000, 63_500 * net.len() as int + 127_000);
    let h = 508_000int;
    let below = if gnd_spec(net) { rot == 0 } else { rot == 180 };
    let above = if gnd_spec(net) { rot == 180 } else { rot == 0 };
    let left = if gnd_spec(net) { rot == 90 } else { rot != 0 && rot != 180 && rot != 90 };
    if below {
        BBox { x0: (at.x - w) as i64, y0: at.y, x1: (at.x + w) as i64, y1: (at.y + h) as i64 }
    } else if above {
        BBox { x0: (at.x - w) as i64, y0: (at.y - h) as i64, x1: (at.x + w) as i64, y1: at.y }
    } else if left {
        BBox { x0: (at.x - h) as i64, y0: (at.y - w) as i64, x1: at.x, y1: (at.y + w) as i64 }
    } else {
        BBox { x0: at.x, y0: (at.y - w) as i64, x1: (at.x + h) as i64, y1: (at.y + w) as i64 }
    }
}

/// Each paragraph longer than sixty characters is filled.
pub open spec fn wrap_paragraphs(ps: Seq<Seq<char>>) -> Seq<Seq<char>> {
    Seq::new(ps.len(), |i: int| if ps[i].len() > 60 { filled(ps[i], 60) } else { ps[i] })
}

/// A note is wrapped at sixty characters; a heading or a large text is kept.
pub open spec fn text_shown(t: Seq<char>, size: int, bold: bool) -> Seq<char> {
    if !bold && size <= 150_000 {
        text::joined(wrap_paragraphs(text::pieces(t, '\n')), "\n"@)
    } else {
        t
    }
}

pub open spec fn longest(ls: Seq<Seq<char>>) -> int
    decreases ls.len(),
{
    if ls.len() == 0 {
        0
    } else {
        geom::hi(longest(ls.drop_last()), ls.last().len() as int)
    }
}

/// The box of a text; more lines or columns than texts can have count as the most.
pub open spec fn text_box_spec(shown: Seq<char>, at: Pt, size: int) -> BBox {
    let ls = text::pieces(shown, '\n');
    let rows = geom::lo(ls.len() as int, TEXT_MAX as int);
    let cols = geom::lo(longest(ls), TEXT_MAX as int);
    BBox {
        x0: at.x,
        y0: (at.y - 3 * size * rows / 2) as i64,
        x1: (at.x + 95 * size * cols / 100) as i64,
        y1: at.y,
    }
}

pub open spec fn box_union(a: BBox, b: BBox) -> BBox {
    BBox {
        x0: geom::lo(a.x0 as int, b.x0 as int) as i64,
        y0: geom::lo(a.y0 as int, b.y0 as int) as i64,
        x1: geom::hi(a.x1 as int, b.x1 as int) as i64,
        y1: geom::hi(a.y1 as int, b.y1 as int) as i64,
    }
}

/// The least box around the first `n` boxes; the empty box at the origin for none.
pub open spec fn hull(bs: Seq<BBox>) -> BBox
    decreases bs.len(),
{
    if bs.len() == 0 {
        BBox { x0: 0, y0: 0, x1: 0, y1: 0 }
    } else if bs.len() == 1 {
        bs[0]
    } else {
        box_union(hull(bs.drop_last()), bs.last())
    }
}

pub open spec fn shift_pt(p: Pt, dx: int, dy: int) -> Pt {
    Pt { x: (p.x + dx) as i64, y: (p.y + dy) as i64 }
}

pub open spec fn shift_box(b: BBox, dx: int, dy: int) -> BBox {
    BBox {
        x0: (b.x0 + dx) as i64,
        y0: (b.y0 + dy) as i64,
        x1: (b.x1 + dx) as i64,
        y1: (b.y1 + dy) as i64,
    }
}

pub open spec fn shift_path(p: Seq<Pt>, dx: int, dy: int) -> Seq<Pt> {
    Seq::new(p.len(), |i: int| shift_pt(p[i], dx, dy))
}

/// A coordinate no farther than `r` from the origin.
pub open spec fn reach(v: int, r: int) -> bool {
    -r <= v <= r
}

pub open spec fn reach_pt(p: Pt, r: int) -> bool {
    reach(p.x as int, r) && reach(p.y as int, r)
}

pub open spec fn reach_box(b: BBox, r: int) -> bool {
    reach(b.x0 as int, r) && reach(b.y0 as int, r) && reach(b.x1 as int, r) && reach(b.y1 as int, r)
}

pub open spec fn reach_path(p: Seq<Pt>, r: int) -> bool {
    forall|i: int| 0 <= i < p.len() ==> reach_pt(#[trigger] p[i], r)
}

impl GeoV {
    pub open spec fn empty() -> GeoV {
        GeoV {
            parts: Seq::empty(),
            power: Seq::empty(),
            wires: Seq::empty(),
            labels: Seq::empty(),
            nc: Seq::empty(),
            texts: Seq::empty(),
            rects: Seq::empty(),
            boxes: Seq::empty(),
        }
    }

    /// Every coordinate lies within `r` of the origin.
    pub open spec fn within(&self, r: int) -> bool {
        &&& forall|i: int| 0 <= i < self.parts.len() ==> reach_pt((#[trigger] self.parts[i]).at, r)
        &&& forall|i: int| 0 <= i < self.power.len() ==> reach_pt((#[trigger] self.power[i]).at, r)
        &&& forall|i: int| 0 <= i < self.wires.len() ==> reach_path(#[trigger] self.wires[i], r)
        &&& forall|i: int| 0 <= i < self.labels.len() ==> reach_pt((#[trigger] self.labels[i]).at, r)
        &&& reach_path(self.nc, r)
        &&& forall|i: int| 0 <= i < self.texts.len() ==> reach_pt((#[trigger] self.texts[i]).at, r)
        &&& forall|i: int| 0 <= i < self.rects.len() ==> reach_box(#[trigger] self.rects[i], r)
        &&& forall|i: int| 0 <= i < self.boxes.len() ==> reach_box(#[trigger] self.boxes[i], r)
    }

    pub open spec fn with_label(
        self,
        text: Seq<char>,
        at: Pt,
        rot: int,
        kind: Seq<char>,
        shape: Seq<char>,
    ) -> GeoV {
        GeoV {
            labels: self.labels.push(LabelV { text, at, rot, kind, shape }),
            boxes: self.boxes.push(label_box_spec(text, at, rot, "local"@)),
            ..self
        }
    }

    pub open spec fn with_power(self, net: Seq<char>, at: Pt, rot: int) -> GeoV {
        GeoV {
            power: self.power.push(PowerV { net, at, rot }),
            boxes: self.boxes.push(power_box_spec(net, at, rot)),
            ..self
        }
    }

    pub open spec fn with_wire(self, pts: Seq<Pt>) -> GeoV {
        GeoV { wires: self.wires.push(pts), ..self }
    }

    pub open spec fn with_nc(self, at: Pt) -> GeoV {
        GeoV { nc: self.nc.push(at), ..self }
    }

    pub open spec fn with_text(self, text: Seq<char>, at: Pt, size: int, bold: bool) -> GeoV {
        let shown = text_shown(text, size, bold);
        GeoV {
            texts: self.texts.push(TextV { text: shown, at, size, bold }),
            boxes: self.boxes.push(text_box_spec(shown, at, size)),
            ..self
        }
    }

    /// Everything moved by `(dx, dy)`.
    pub open spec fn shifted(self, dx: int, dy: int) -> GeoV {
        GeoV {
            parts: Seq::new(
                self.parts.len(),
                |i: int| PartV { at: shift_pt(self.parts[i].at, dx, dy), ..self.parts[i] },
            ),
            power: Seq::new(
                self.power.len(),
                |i: int| PowerV { at: shift_pt(self.power[i].at, dx, dy), ..self.power[i] },
            ),
            wires: Seq::new(self.wires.len(), |i: int| shift_path(self.wires[i], dx, dy)),
            labels: Seq::new(
                self.labels.len(),
                |i: int| LabelV { at: shift_pt(self.labels[i].at, dx, dy), ..self.labels[i] },
            ),
            nc: shift_path(self.nc, dx, dy),
            texts: Seq::new(
                self.texts.len(),
                |i: int| TextV { at: shift_pt(self.texts[i].at, dx, dy), ..self.texts[i] },
            ),
            rects: Seq::new(self.rects.len(), |i: int| shift_box(self.rects[i], dx, dy)),
            boxes: Seq::new(self.boxes.len(), |i: int| shift_box(self.boxes[i], dx, dy)),
        }
    }

    /// Everything of `self`, then everything of `other`.
    pub open spec fn merged(self, other: GeoV) -> GeoV {
        GeoV {
            parts: self.parts + other.parts,
            power: self.power + other.power,
            wires: self.wires + other.wires,
            labels: self.labels + other.labels,
            nc: self.nc + other.nc,
            texts: self.texts + other.texts,
            rects: self.rects + other.rects,
            boxes: self.boxes + other.boxes,
        }
    }
}

/// Optional attributes of a part.
#[derive(Debug, Clone)]
pub struct PartOpts {
    pub rot: i32,
    pub value: String,
    pub footprint: String,
    pub fields: Vec<(String, String)>,
    pub mirror: String,
    pub unit: i32,
    pub dnp: bool,
}

impl PartOpts {
    /// A part of unit 1 turned by `rot`, with nothing else set.
    pub fn new(rot: i32) -> (o: PartOpts)
        ensures
            o.rot == rot,
            o.unit == 1,
            o.value@.len() == 0,
            o.footprint@.len() == 0,
            o.fields@.len() == 0,
            o.mirror@.len() == 0,
            !o.dnp,
    {
        PartOpts {
            rot,
            value: String::new(),
            footprint: String::new(),
            fields: Vec::new(),
            mirror: String::new(),
            unit: 1,
            dnp: false,
        }
    }
}

/// The box of a placed symbol with room for its reference and value: five grid steps to the right
/// of a small upright part, one and a half above and below any other.
pub open spec fn part_room(u: symlib::UnitInfo, at: Pt, rot: int, m: Mirror) -> BBox {
    let e = symlib::turned_box(u.bbox, at, rot, m);
    if u.pins@.len() <= 2 && (rot == 0 || rot == 180) {
        BBox { x1: (e.x1 + 635_000) as i64, ..e }
    } else {
        BBox { y0: (e.y0 - 190_500) as i64, y1: (e.y1 + 190_500) as i64, ..e }
    }
}

/// Instance extent, pins included.
pub fn extent(sym: &SymbolInfo, at: Pt, rot: i32, mirror: &str, unit: i32) -> (b: BBox)
    requires
        sym.wf(),
        symlib::near_pt(at),
    ensures
        b == symlib::turned_box(
            sym.unit_spec(unit as int).bbox,
            at,
            rot as int,
            symlib::mirror_spec(mirror@),
        ),
        symlib::wide_box(b),
{
    turn_box(&sym.unit_info(unit).bbox, at, rot, mirror_of(mirror))
}

/// Where a pin of an instance connects.
pub fn pin_pos(pin: &Pin, at: Pt, rot: i32, mirror: &str) -> (p: Pt)
    requires
        symlib::pin_ok(*pin),
        symlib::near_pt(at),
    ensures
        p == symlib::pin_at(*pin, at, rot as int, symlib::mirror_spec(mirror@)),
        symlib::tip_pt(p),
{
    pin_point(pin, at, rot, mirror_of(mirror))
}

/// The symbol that a library id names: an embedded one first, then one of the stock index.
pub open spec fn info_spec(s: Session, index: SymbolIndex, lib: Seq<char>) -> Option<
    Arc<SymbolInfo>,
> {
    match s.extra.found(lib) {
        Some(i) => Some(i),
        None => index.found(lib),
    }
}

/// Every symbol that can be looked up is well formed.
pub open spec fn library_ok(s: Session, index: SymbolIndex) -> bool {
    &&& s.wf()
    &&& index.wf()
    &&& forall|i: int| 0 <= i < s.extra.vals@.len() ==> (#[trigger] s.extra.vals@[i]).wf()
}

/// The drawing with one part more.
pub open spec fn with_part(g: GeoV, id: Seq<char>, lib: Seq<char>, at: Pt, o: PartOpts, sym: SymbolInfo) -> GeoV {
    let unit = if o.unit == 0 { 1int } else { o.unit as int };
    GeoV {
        parts: g.parts.push(
            PartV {
                id,
                lib,
                at,
                rot: o.rot as int,
                mirror: o.mirror@,
                value: o.value@,
                footprint: o.footprint@,
                fields: fields_v(o.fields@),
                unit,
                dnp: o.dnp,
            },
        ),
        boxes: g.boxes.push(
            part_room(sym.unit_spec(unit), at, o.rot as int, symlib::mirror_spec(o.mirror@)),
        ),
        ..g
    }
}

pub(crate) fn dup_fields(f: &Vec<(String, String)>) -> (r: Vec<(String, String)>)
    ensures
        fields_v(r@) == fields_v(f@),
{
    let mut fields: Vec<(String, String)> = Vec::new();
    let mut i: usize = 0;
    while i < f.len()
        invariant
            i <= f@.len(),
            fields@.len() == i,
            forall|j: int| 0 <= j < i ==> fields@[j].0@ == f@[j].0@ && fields@[j].1@ == f@[j].1@,
        decreases f@.len() - i,
    {
        fields.push((f[i].0.clone(), f[i].1.clone()));
        i += 1;
    }
    assert(fields_v(fields@) =~= fields_v(f@));
    fields
}

pub(crate) fn dup_path(p: &Vec<Pt>) -> (r: Vec<Pt>)
    ensures
        r@ == p@,
{
    let mut r: Vec<Pt> = Vec::new();
    let mut i: usize = 0;
    while i < p.len()
        invariant
            i <= p@.len(),
            r@ == p@.take(i as int),
        decreases p@.len() - i,
    {
        proof {
            assert(p@.take(i + 1) =~= p@.take(i as int).push(p@[i as int]));
        }
        r.push(p[i]);
        i += 1;
    }
    assert(p@.take(i as int) =~= p@);
    r
}

impl Geo {
    pub fn new() -> (g: Geo)
        ensures
            g@ == GeoV::empty(),
    {
        let g = Geo {
            parts: Vec::new(),
            power: Vec::new(),
            wires: Vec::new(),
            labels: Vec::new(),
            nc: Vec::new(),
            texts: Vec::new(),
            rects: Vec::new(),
            boxes: Vec::new(),
        };
        assert(g@ =~= GeoV::empty());
        g
    }

    /// Adds a part with room for its texts; an unknown symbol is refused and nothing is added.
    pub fn add_part(
        &mut self,
        s: &Session,
        index: &SymbolIndex,
        id: &str,
        lib: &str,
        at: Pt,
        opts: &PartOpts,
    ) -> (r: Result<Arc<SymbolInfo>, LayoutError>)
        requires
            library_ok(*s, *index),
            symlib::near_pt(at),
        ensures
            match r {
                Ok(sym) => info_spec(*s, *index, lib@) == Some(sym) && final(self)@ == with_part(
                    old(self)@,
                    id@,
                    lib@,
                    at,
                    *opts,
                    *sym,
                ),
                Err(e) => info_spec(*s, *index, lib@) is None && e.0@ == unknown_symbol(lib@)
                    && final(self)@ == old(self)@,
            },
    {
        let unit: i32 = if opts.unit == 0 { 1 } else { opts.unit };
        let sym = match info(s, index, lib) {
            Ok(i) => i,
            Err(e) => return Err(e),
        };
        let ghost g0 = self@;
        let mut ext: BBox = extent(&sym, at, opts.rot, opts.mirror.as_str(), unit);
        if sym.pins_for_unit(unit).len() <= 2 && (opts.rot == 0 || opts.rot == 180) {
            ext = BBox { x0: ext.x0, y0: ext.y0, x1: ext.x1 + 635_000, y1: ext.y1 };
        } else {
            ext = BBox { x0: ext.x0, y0: ext.y0 - 190_500, x1: ext.x1, y1: ext.y1 + 190_500 };
        }
        let rec = PartRec {
            id: id.to_owned(),
            lib: lib.to_owned(),
            at,
            rot: opts.rot,
            mirror: opts.mirror.clone(),
            value: opts.value.clone(),
            footprint: opts.footprint.clone(),
            fields: dup_fields(&opts.fields),
            unit,
            dnp: opts.dnp,
        };
        self.parts.push(rec);
        self.boxes.push(ext);
        assert(self@ =~= with_part(g0, id@, lib@, at, *opts, *sym));
        Ok(sym)
    }

    /// The extent a label would have.
    pub fn label_box(&self, text: &str, at: Pt, rot: i32, kind: &str) -> (b: BBox)
        requires
            symlib::wide_pt(at),
            text@.len() <= TEXT_MAX,
        ensures
            b == label_box_spec(text@, at, rot as int, kind@),
            geom::box_ok(b),
    {
        let n: i64 = text.unicode_len() as i64;
        let pad: i64 = if same(kind, "local") { 152_400 } else { 444_500 };
        label_rect(at, rot, 120_650 * n + pad)
    }

    pub fn add_label(&mut self, text: &str, at: Pt, rot: i32, kind: &str, shape: &str)
        requires
            symlib::wide_pt(at),
            text@.len() <= TEXT_MAX,
        ensures
            final(self)@ == old(self)@.with_label(text@, at, rot as int, kind@, shape@),
    {
        let ghost g0 = self@;
        let b = self.label_box(text, at, rot, "local");
        self.labels.push(
            LabelRec {
                text: text.to_owned(),
                at,
                rot,
                kind: kind.to_owned(),
                shape: shape.to_owned(),
            },
        );
        self.boxes.push(b);
        assert(self@ =~= g0.with_label(text@, at, rot as int, kind@, shape@));
    }

    pub fn add_power(&mut self, net: &str, at: Pt, rot: i32)
        requires
            symlib::wide_pt(at),
            net@.len() <= TEXT_MAX,
        ensures
            final(self)@ == old(self)@.with_power(net@, at, rot as int),
    {
        let ghost g0 = self@;
        let n: i64 = net.unicode_len() as i64;
        let w: i64 = max_i(381_000, 63_500 * n + 127_000);
        let h: i64 = 508_000;
        let gnd = is_gnd(net);
        let below = if gnd { rot == 0 } else { rot == 180 };
        let above = if gnd { rot == 180 } else { rot == 0 };
        let left = if gnd { rot == 90 } else { rot != 0 && rot != 180 && rot != 90 };
        let b = if below {
            BBox { x0: at.x - w, y0: at.y, x1: at.x + w, y1: at.y + h }
        } else if above {
            BBox { x0: at.x - w, y0: at.y - h, x1: at.x + w, y1: at.y }
        } else if left {
            BBox { x0: at.x - h, y0: at.y - w, x1: at.x, y1: at.y + w }
        } else {
            BBox { x0: at.x, y0: at.y - w, x1: at.x + h, y1: at.y + w }
        };
        self.power.push(PowerRec { net: net.to_owned(), at, rot });
        self.boxes.push(b);
        assert(self@ =~= g0.with_power(net@, at, rot as int));
    }

    pub fn add_wire(&mut self, pts: &Vec<Pt>)
        ensures
            final(self)@ == old(self)@.with_wire(pts@),
    {
        let ghost g0 = self@;
        self.wires.push(dup_path(pts));
        assert(self@ =~= g0.with_wire(pts@));
    }

    /// Adds the straight wire between two points.
    pub fn add_line(&mut self, a: Pt, b: Pt)
        ensures
            final(self)@ == old(self)@.with_wire(seq![a, b]),
    {
        let ghost g0 = self@;
        let mut p: Vec<Pt> = Vec::new();
        p.push(a);
        p.push(b);
        assert(p@ =~= seq![a, b]);
        self.wires.push(p);
        assert(self@ =~= g0.with_wire(seq![a, b]));
    }

    pub fn add_nc(&mut self, at: Pt)
        ensures
            final(self)@ == old(self)@.with_nc(at),
    {
        let ghost g0 = self@;
        self.nc.push(at);
        assert(self@ =~= g0.with_nc(at));
    }

    /// Adds a text; a note is wrapped first.
    pub fn add_text(&mut self, text: &str, at: Pt, size: i64, bold: bool)
        requires
            reach_pt(at, 0x800_0000_0000_0000),
            0 <= size <= 0x10_0000,
        ensures
            final(self)@ == old(self)@.with_text(text@, at, size as int, bold),
    {
        let ghost g0 = self@;
        let shown = shown_text(text, size, bold);
        let lines = split(shown.as_str(), '\n');
        let mut most: usize = 0;
        let mut i: usize = 0;
        while i < lines.len()
            invariant
                i <= lines@.len(),
                most == longest(text::views(lines@).take(i as int)),
            decreases lines@.len() - i,
        {
            proof {
                assert(text::views(lines@).take(i + 1).drop_last() =~= text::views(lines@).take(
                    i as int,
                ));
            }
            let n: usize = lines[i].as_str().unicode_len();
            if n > most {
                most = n;
            }
            i += 1;
        }
        proof {
            assert(text::views(lines@).take(i as int) =~= text::views(lines@));
            assert(text::views(lines@).len() == lines@.len());
        }
        let k: i64 = if lines.len() < TEXT_MAX as usize { lines.len() as i64 } else { TEXT_MAX as i64 };
        let m: i64 = if most < TEXT_MAX as usize { most as i64 } else { TEXT_MAX as i64 };
        proof {
            assert(0 <= size * k <= 0x10_0000 * 0x40_0000) by (nonlinear_arith)
                requires
                    0 <= size <= 0x10_0000,
                    0 <= k <= 0x40_0000,
            ;
            assert(0 <= size * m <= 0x10_0000 * 0x40_0000) by (nonlinear_arith)
                requires
                    0 <= size <= 0x10_0000,
                    0 <= m <= 0x40_0000,
            ;
            assert(3 * size * k == 3 * (size * k)) by (nonlinear_arith);
            assert(95 * size * m == 95 * (size * m)) by (nonlinear_arith);
        }
        let h: i64 = 3 * (size * k) / 2;
        let w: i64 = 95 * (size * m) / 100;
        let b = BBox { x0: at.x, y0: at.y - h, x1: at.x + w, y1: at.y };
        self.texts.push(TextRec { text: shown, at, size, bold });
        self.boxes.push(b);
        assert(self@ =~= g0.with_text(text@, at, size as int, bold));
    }

    /// The least box around everything drawn.
    pub fn bbox(&self) -> (b: BBox)
        ensures
            b == hull(self@.boxes),
            forall|r: int| #[trigger] self@.within(r) && r >= 0 ==> reach_box(b, r),
    {
        if self.boxes.len() == 0 {
            return BBox { x0: 0, y0: 0, x1: 0, y1: 0 };
        }
        let mut b: BBox = self.boxes[0];
        let mut i: usize = 1;
        proof {
            assert(self.boxes@.take(1)[0] == self.boxes@[0]);
            assert(self@.boxes[0] == b);
        }
        while i < self.boxes.len()
            invariant
                1 <= i <= self.boxes@.len(),
                b == hull(self.boxes@.take(i as int)),
                forall|r: int| #[trigger] self@.within(r) ==> reach_box(b, r),
            decreases self.boxes@.len() - i,
        {
            let c: BBox = self.boxes[i];
            proof {
                assert(self.boxes@.take(i + 1).drop_last() =~= self.boxes@.take(i as int));
                assert(self@.boxes[i as int] == c);
            }
            b =
            BBox {
                x0: min_i(b.x0, c.x0),
                y0: min_i(b.y0, c.y0),
                x1: max_i(b.x1, c.x1),
                y1: max_i(b.y1, c.y1),
            };
            i += 1;
        }
        assert(self.boxes@.take(i as int) =~= self.boxes@);
        b
    }
}

fn shown_text(text: &str, size: i64, bold: bool) -> (r: String)
    ensures
        r@ == text_shown(text@, size as int, bold),
{
    if bold || size > 150_000 {
        return text.to_owned();
    }
    let ps = split(text, '\n');
    let mut out: Vec<String> = Vec::new();
    let mut i: usize = 0;
    let ghost all = text::views(ps@);
    while i < ps.len()
        invariant
            i <= ps@.len(),
            all == text::views(ps@),
            text::views(out@) == wrap_paragraphs(all).take(i as int),
        decreases ps@.len() - i,
    {
        let ghost o0 = out@;
        let line = if ps[i].as_str().unicode_len() > 60 {
            fill(ps[i].as_str(), 60)
        } else {
            ps[i].clone()
        };
        out.push(line);
        proof {
            assert(wrap_paragraphs(all).take(i + 1) =~= wrap_paragraphs(all).take(i as int).push(
                wrap_paragraphs(all)[i as int],
            ));
            assert(text::views(out@) =~= text::views(o0).push(wrap_paragraphs(all)[i as int]));
        }
        i += 1;
    }
    assert(wrap_paragraphs(all).take(i as int) =~= wrap_paragraphs(all));
    join(&out, "\n")
}

fn moved(p: Pt, dx: i64, dy: i64) -> (r: Pt)
    requires
        reach_pt(p, 0x800_0000_0000_0000),
        reach(dx as int, 0x800_0000_0000_0000),
        reach(dy as int, 0x800_0000_0000_0000),
    ensures
        r == shift_pt(p, dx as int, dy as int),
{
    Pt { x: p.x + dx, y: p.y + dy }
}

fn moved_box(b: BBox, dx: i64, dy: i64) -> (r: BBox)
    requires
        reach_box(b, 0x800_0000_0000_0000),
        reach(dx as int, 0x800_0000_0000_0000),
        reach(dy as int, 0x800_0000_0000_0000),
    ensures
        r == shift_box(b, dx as int, dy as int),
{
    BBox { x0: b.x0 + dx, y0: b.y0 + dy, x1: b.x1 + dx, y1: b.y1 + dy }
}

fn move_path(p: &mut Vec<Pt>, dx: i64, dy: i64)
    requires
        reach_path(old(p)@, 0x800_0000_0000_0000),
        reach(dx as int, 0x800_0000_0000_0000),
        reach(dy as int, 0x800_0000_0000_0000),
    ensures
        final(p)@ == shift_path(old(p)@, dx as int, dy as int),
{
    let ghost p0 = p@;
    let mut i: usize = 0;
    while i < p.len()
        invariant
            i <= p@.len(),
            p@.len() == p0.len(),
            reach_path(p0, 0x800_0000_0000_0000),
            reach(dx as int, 0x800_0000_0000_0000),
            reach(dy as int, 0x800_0000_0000_0000),
            forall|j: int| 0 <= j < i ==> p@[j] == shift_pt(p0[j], dx as int, dy as int),
            forall|j: int| i <= j < p0.len() ==> p@[j] == p0[j],
        decreases p@.len() - i,
    {
        proof {
            assert(reach_pt(p0[i as int], 0x800_0000_0000_0000));
        }
        let q: Pt = moved(p[i], dx, dy);
        p.set(i, q);
        i += 1;
    }
    assert(p@ =~= shift_path(p0, dx as int, dy as int));
}

fn move_boxes(p: &mut Vec<BBox>, dx: i64, dy: i64)
    requires
        forall|i: int| 0 <= i < old(p)@.len() ==> reach_box(#[trigger] old(p)@[i], 0x800_0000_0000_0000),
        reach(dx as int, 0x800_0000_0000_0000),
        reach(dy as int, 0x800_0000_0000_0000),
    ensures
        final(p)@ == Seq::new(
            old(p)@.len(),
            |i: int| shift_box(old(p)@[i], dx as int, dy as int),
        ),
{
    let ghost p0 = p@;
    let mut i: usize = 0;
    while i < p.len()
        invariant
            i <= p@.len(),
            p@.len() == p0.len(),
            forall|i: int| 0 <= i < p0.len() ==> reach_box(#[trigger] p0[i], 0x800_0000_0000_0000),
            reach(dx as int, 0x800_0000_0000_0000),
            reach(dy as int, 0x800_0000_0000_0000),
            forall|j: int| 0 <= j < i ==> p@[j] == shift_box(p0[j], dx as int, dy as int),
            forall|j: int| i <= j < p0.len() ==> p@[j] == p0[j],
        decreases p@.len() - i,
    {
        proof {
            assert(reach_box(p0[i as int], 0x800_0000_0000_0000));
        }
        let q: BBox = moved_box(p[i], dx, dy);
        p.set(i, q);
        i += 1;
    }
    assert(p@ =~= Seq::new(p0.len(), |i: int| shift_box(p0[i], dx as int, dy as int)));
}

impl Geo {
    /// Moves everything by `(dx, dy)`.
    pub fn translate(&mut self, dx: i64, dy: i64)
        requires
            old(self)@.within(0x800_0000_0000_0000),
            reach(dx as int, 0x800_0000_0000_0000),
            reach(dy as int, 0x800_0000_0000_0000),
        ensures
            final(self)@ == old(self)@.shifted(dx as int, dy as int),
    {
        let ghost g0 = self@;
        let ghost (x, y) = (dx as int, dy as int);
        let mut i: usize = 0;
        while i < self.parts.len()
            invariant
                i <= self.parts@.len(),
                g0.within(0x800_0000_0000_0000),
                reach(dx as int, 0x800_0000_0000_0000),
                reach(dy as int, 0x800_0000_0000_0000),
                self@.parts.len() == g0.parts.len(),
                forall|j: int|
                    0 <= j < i ==> #[trigger] self@.parts[j] == (PartV {
                        at: shift_pt(g0.parts[j].at, dx as int, dy as int),
                        ..g0.parts[j]
                    }),
                forall|j: int| i <= j < g0.parts.len() ==> #[trigger] self@.parts[j] == g0.parts[j],
                self@ == (GeoV { parts: self@.parts, ..g0 }),
            decreases self.parts@.len() - i,
        {
            proof {
                assert(self@.parts[i as int] == g0.parts[i as int]);
            }
            let ghost s0 = self@;
            let q: Pt = moved(self.parts[i].at, dx, dy);
            self.parts[i].at = q;
            proof {
                assert(self@.parts =~= s0.parts.update(
                    i as int,
                    PartV { at: q, ..s0.parts[i as int] },
                ));
                assert(self@ =~= GeoV { parts: self@.parts, ..g0 });
            }
            i += 1;
        }
        let ghost g1 = GeoV { parts: g0.shifted(x, y).parts, ..g0 };
        assert(self@ =~= g1);
        i = 0;
        while i < self.power.len()
            invariant
                i <= self.power@.len(),
                g0.within(0x800_0000_0000_0000),
                reach(dx as int, 0x800_0000_0000_0000),
                reach(dy as int, 0x800_0000_0000_0000),
                g1.power == g0.power,
                self@.power.len() == g0.power.len(),
                forall|j: int|
                    0 <= j < i ==> #[trigger] self@.power[j] == (PowerV {
                        at: shift_pt(g0.power[j].at, dx as int, dy as int),
                        ..g0.power[j]
                    }),
                forall|j: int| i <= j < g0.power.len() ==> #[trigger] self@.power[j] == g0.power[j],
                self@ == (GeoV { power: self@.power, ..g1 }),
            decreases self.power@.len() - i,
        {
            proof {
                assert(self@.power[i as int] == g0.power[i as int]);
            }
            let ghost s0 = self@;
            let q: Pt = moved(self.power[i].at, dx, dy);
            self.power[i].at = q;
            proof {
                assert(self@.power =~= s0.power.update(
                    i as int,
                    PowerV { at: q, ..s0.power[i as int] },
                ));
                assert(self@ =~= GeoV { power: self@.power, ..g1 });
            }
            i += 1;
        }
        let ghost g2 = GeoV { power: g0.shifted(x, y).power, ..g1 };
        assert(self@ =~= g2);
        i = 0;
        while i < self.labels.len()
            invariant
                i <= self.labels@.len(),
                g0.within(0x800_0000_0000_0000),
                reach(dx as int, 0x800_0000_0000_0000),
                reach(dy as int, 0x800_0000_0000_0000),
                g2.labels == g0.labels,
                self@.labels.len() == g0.labels.len(),
                forall|j: int|
                    0 <= j < i ==> #[trigger] self@.labels[j] == (LabelV {
                        at: shift_pt(g0.labels[j].at, dx as int, dy as int),
                        ..g0.labels[j]
                    }),
                forall|j: int| i <= j < g0.labels.len() ==> #[trigger] self@.labels[j] == g0.labels[j],
                self@ == (GeoV { labels: self@.labels, ..g2 }),
            decreases self.labels@.len() - i,
        {
            proof {
                assert(self@.labels[i as int] == g0.labels[i as int]);
            }
            let ghost s0 = self@;
            let q: Pt = moved(self.labels[i].at, dx, dy);
            self.labels[i].at = q;
            proof {
                assert(self@.labels =~= s0.labels.update(
                    i as int,
                    LabelV { at: q, ..s0.labels[i as int] },
                ));
                assert(self@ =~= GeoV { labels: self@.labels, ..g2 });
            }
            i += 1;
        }
        let ghost g3 = GeoV { labels: g0.shifted(x, y).labels, ..g2 };
        assert(self@ =~= g3);
        i = 0;
        while i < self.texts.len()
            invariant
                i <= self.texts@.len(),
                g0.within(0x800_0000_0000_0000),
                reach(dx as int, 0x800_0000_0000_0000),
                reach(dy as int, 0x800_0000_0000_0000),
                g3.texts == g0.texts,
                self@.texts.len() == g0.texts.len(),
                forall|j: int|
                    0 <= j < i ==> #[trigger] self@.texts[j] == (TextV {
                        at: shift_pt(g0.texts[j].at, dx as int, dy as int),
                        ..g0.texts[j]
                    }),
                forall|j: int| i <= j < g0.texts.len() ==> #[trigger] self@.texts[j] == g0.texts[j],
                self@ == (GeoV { texts: self@.texts, ..g3 }),
            decreases self.texts@.len() - i,
        {
            proof {
                assert(self@.texts[i as int] == g0.texts[i as int]);
            }
            let ghost s0 = self@;
            let q: Pt = moved(self.texts[i].at, dx, dy);
            self.texts[i].at = q;
            proof {
                assert(self@.texts =~= s0.texts.update(
                    i as int,
                    TextV { at: q, ..s0.texts[i as int] },
                ));
                assert(self@ =~= GeoV { texts: self@.texts, ..g3 });
            }
            i += 1;
        }
        let ghost g4 = GeoV { texts: g0.shifted(x, y).texts, ..g3 };
        assert(self@ =~= g4);
        i = 0;
        while i < self.wires.len()
            invariant
                i <= self.wires@.len(),
                g0.within(0x800_0000_0000_0000),
                reach(dx as int, 0x800_0000_0000_0000),
                reach(dy as int, 0x800_0000_0000_0000),
                g4.wires == g0.wires,
                self@.wires.len() == g0.wires.len(),
                forall|j: int|
                    0 <= j < i ==> #[trigger] self@.wires[j] == shift_path(
                        g0.wires[j],
                        dx as int,
                        dy as int,
                    ),
                forall|j: int| i <= j < g0.wires.len() ==> #[trigger] self@.wires[j] == g0.wires[j],
                self@ == (GeoV { wires: self@.wires, ..g4 }),
            decreases self.wires@.len() - i,
        {
            proof {
                assert(self@.wires[i as int] == g0.wires[i as int]);
            }
            let ghost s0 = self@;
            move_path(&mut self.wires[i], dx, dy);
            proof {
                assert(self@.wires =~= s0.wires.update(
                    i as int,
                    shift_path(s0.wires[i as int], dx as int, dy as int),
                ));
                assert(self@ =~= GeoV { wires: self@.wires, ..g4 });
            }
            i += 1;
        }
        move_path(&mut self.nc, dx, dy);
        move_boxes(&mut self.rects, dx, dy);
        move_boxes(&mut self.boxes, dx, dy);
        assert(self@ =~= g0.shifted(x, y));
    }

    /// Adds everything of another drawing after what is here.
    pub fn merge(&mut self, other: &Geo)
        ensures
            final(self)@ == old(self)@.merged(other@),
    {
        let ghost g0 = self@;
        let mut i: usize = 0;
        while i < other.parts.len()
            invariant
                i <= other.parts@.len(),
                self@ == (GeoV { parts: g0.parts + other@.parts.take(i as int), ..g0 }),
            decreases other.parts@.len() - i,
        {
            let ghost s0 = self@;
            self.parts.push(other.parts[i].dup());
            proof {
                assert(self@.parts =~= s0.parts.push(other@.parts[i as int]));
                assert(self@.parts =~= g0.parts + other@.parts.take(i + 1));
                assert(self@ =~= GeoV { parts: g0.parts + other@.parts.take(i + 1), ..g0 });
            }
            i += 1;
        }
        let ghost g1 = GeoV { parts: g0.parts + other@.parts, ..g0 };
        assert(self@ =~= g1);
        i = 0;
        while i < other.power.len()
            invariant
                i <= other.power@.len(),
                self@ == (GeoV { power: g1.power + other@.power.take(i as int), ..g1 }),
            decreases other.power@.len() - i,
        {
            let ghost s0 = self@;
            self.power.push(other.power[i].dup());
            proof {
                assert(self@.power =~= s0.power.push(other@.power[i as int]));
                assert(self@.power =~= g1.power + other@.power.take(i + 1));
                assert(self@ =~= GeoV { power: g1.power + other@.power.take(i + 1), ..g1 });
            }
            i += 1;
        }
        let ghost g2 = GeoV { power: g0.power + other@.power, ..g1 };
        assert(self@ =~= g2);
        i = 0;
        while i < other.wires.len()
            invariant
                i <= other.wires@.len(),
                self@ == (GeoV { wires: g2.wires + other@.wires.take(i as int), ..g2 }),
            decreases other.wires@.len() - i,
        {
            let ghost s0 = self@;
            self.wires.push(dup_path(&other.wires[i]));
            proof {
                assert(self@.wires =~= s0.wires.push(other@.wires[i as int]));
                assert(self@.wires =~= g2.wires + other@.wires.take(i + 1));
                assert(self@ =~= GeoV { wires: g2.wires + other@.wires.take(i + 1), ..g2 });
            }
            i += 1;
        }
        let ghost g3 = GeoV { wires: g0.wires + other@.wires, ..g2 };
        assert(self@ =~= g3);
        i = 0;
        while i < other.labels.len()
            invariant
                i <= other.labels@.len(),
                self@ == (GeoV { labels: g3.labels + other@.labels.take(i as int), ..g3 }),
            decreases other.labels@.len() - i,
        {
            let ghost s0 = self@;
            self.labels.push(other.labels[i].dup());
            proof {
                assert(self@.labels =~= s0.labels.push(other@.labels[i as int]));
                assert(self@.labels =~= g3.labels + other@.labels.take(i + 1));
                assert(self@ =~= GeoV { labels: g3.labels + other@.labels.take(i + 1), ..g3 });
            }
            i += 1;
        }
        let ghost g4 = GeoV { labels: g0.labels + other@.labels, ..g3 };
        assert(self@ =~= g4);
        i = 0;
        while i < other.texts.len()
            invariant
                i <= other.texts@.len(),
                self@ == (GeoV { texts: g4.texts + other@.texts.take(i as int), ..g4 }),
            decreases other.texts@.len() - i,
        {
            let ghost s0 = self@;
            self.texts.push(other.texts[i].dup());
            proof {
                assert(self@.texts =~= s0.texts.push(other@.texts[i as int]));
                assert(self@.texts =~= g4.texts + other@.texts.take(i + 1));
                assert(self@ =~= GeoV { texts: g4.texts + other@.texts.take(i + 1), ..g4 });
            }
            i += 1;
        }
        let ghost g5 = GeoV { texts: g0.texts + other@.texts, ..g4 };
        assert(self@ =~= g5);
        let mut nc = dup_path(&other.nc);
        self.nc.append(&mut nc);
        let mut rects = dup_boxes(&other.rects);
        self.rects.append(&mut rects);
        let mut boxes = dup_boxes(&other.boxes);
        self.boxes.append(&mut boxes);
        assert(self@ =~= g0.merged(other@));
    }

    /// A copy of the drawing.
    pub fn dup(&self) -> (r: Geo)
        ensures
            r@ == self@,
    {
        let mut r = Geo::new();
        r.merge(self);
        assert(r@ =~= self@);
        r
    }
}

pub(crate) fn dup_boxes(p: &Vec<BBox>) -> (r: Vec<BBox>)
    ensures
        r@ == p@,
{
    let mut r: Vec<BBox> = Vec::new();
    let mut i: usize = 0;
    while i < p.len()
        invariant
            i <= p@.len(),
            r@ == p@.take(i as int),
        decreases p@.len() - i,
    {
        proof {
            assert(p@.take(i + 1) =~= p@.take(i as int).push(p@[i as int]));
        }
        r.push(p[i]);
        i += 1;
    }
    assert(p@.take(i as int) =~= p@);
    r
}

/// Moving a drawing moves its bounding box by the same amount.
pub proof fn translate_moves_bbox(g: GeoV, dx: int, dy: int)
    requires
        g.boxes.len() > 0,
        g.within(0x800_0000_0000_0000),
        reach(dx, 0x800_0000_0000_0000),
        reach(dy, 0x800_0000_0000_0000),
    ensures
        hull(g.shifted(dx, dy).boxes) == shift_box(hull(g.boxes), dx, dy),
{
    lemma_hull_shift(g.boxes, dx, dy);
}

pub open spec fn shift_boxes(bs: Seq<BBox>, dx: int, dy: int) -> Seq<BBox> {
    Seq::new(bs.len(), |i: int| shift_box(bs[i], dx, dy))
}

pub proof fn lemma_hull_reach(bs: Seq<BBox>, r: int)
    requires
        r >= 0,
        forall|i: int| 0 <= i < bs.len() ==> reach_box(#[trigger] bs[i], r),
    ensures
        reach_box(hull(bs), r),
    decreases bs.len(),
{
    if bs.len() > 1 {
        lemma_hull_reach(bs.drop_last(), r);
    }
}

proof fn lemma_hull_shift(bs: Seq<BBox>, dx: int, dy: int)
    requires
        bs.len() > 0,
        forall|i: int| 0 <= i < bs.len() ==> reach_box(#[trigger] bs[i], 0x800_0000_0000_0000),
        reach(dx, 0x800_0000_0000_0000),
        reach(dy, 0x800_0000_0000_0000),
    ensures
        hull(shift_boxes(bs, dx, dy)) == shift_box(hull(bs), dx, dy),
    decreases bs.len(),
{
    if bs.len() > 1 {
        let prefix = bs.drop_last();
        lemma_hull_shift(prefix, dx, dy);
        lemma_hull_reach(prefix, 0x800_0000_0000_0000);
        assert(shift_boxes(bs, dx, dy).drop_last() =~= shift_boxes(prefix, dx, dy));
        assert(reach_box(bs.last(), 0x800_0000_0000_0000));
    }
}

/// Two moves in a row are one move by the sum.
pub proof fn translate_composes(g: GeoV, ax: int, ay: int, bx: int, by: int)
    requires
        g.within(0x100_0000_0000_0000),
        reach(ax, 0x100_0000_0000_0000),
        reach(ay, 0x100_0000_0000_0000),
        reach(bx, 0x100_0000_0000_0000),
        reach(by, 0x100_0000_0000_0000),
    ensures
        g.shifted(ax, ay).shifted(bx, by) == g.shifted(ax + bx, ay + by),
{
    let l = g.shifted(ax, ay).shifted(bx, by);
    let r = g.shifted(ax + bx, ay + by);
    assert(l.parts =~= r.parts);
    assert(l.power =~= r.power);
    assert forall|i: int| 0 <= i < g.wires.len() implies #[trigger] l.wires[i] == r.wires[i] by {
        assert(reach_path(g.wires[i], 0x100_0000_0000_0000));
        assert(l.wires[i] =~= r.wires[i]);
    }
    assert(l.wires =~= r.wires);
    assert(l.labels =~= r.labels);
    assert(l.nc =~= r.nc);
    assert(l.texts =~= r.texts);
    assert(l.rects =~= r.rects);
    assert(l.boxes =~= r.boxes);
}

} // verus!
