//! Parts with their pin geometry and text room, and the small rules the group layout is built on.
use crate::geo;
use crate::geo::{info, is_gnd, LayoutError, Session};
use crate::geom;
use crate::geom::{abs_i, floor_mod, max_i, BBox, Dir, Mirror, Pt};
use crate::order;
use crate::order::order_by_key;
pub use crate::order_map::OrderMap;
use crate::symlib;
use crate::symlib::{
    mirror_of, pin_point, rot_point, turn_box, turned_dir, LibProp, Pin, SymbolIndex, SymbolInfo,
    TEXT_MAX,
};
use crate::text;
use crate::text::{chars_of, contains, same, split, starts_with};
use std::sync::Arc;
pub use crate::circuit::strip_power_parts;
pub use crate::layout::GroupLayout;
use vstd::prelude::*;

verus! {

/// Slots of the hash table of a small integer set after `n` insertions, from a table of `size`
/// slots that holds `fill` entries: once three fifths are taken it grows to the least power of two
/// above four times its entries.
pub open spec fn table_size(size: int, fill: int, n: int) -> int
    decreases n,
{
    if n <= 0 {
        size
    } else {
        let f = fill + 1;
        table_size(
            if f * 5 >= (size - 1) * 3 { pow2_above(8, f * 4) } else { size },
            f,
            n - 1,
        )
    }
}

/// `s`, doubled until it exceeds `least`.
pub open spec fn pow2_above(s: int, least: int) -> int
    decreases geom::hi(0, least - s + 1),
{
    if s <= 0 || s > least {
        s
    } else {
        pow2_above(2 * s, least)
    }
}

/// The keys that put values into hash slot order.
pub open spec fn slot_keys(vals: Seq<i64>) -> Seq<(i64, i64, i64)> {
    let size = table_size(8, 0, vals.len() as int);
    Seq::new(vals.len(), |i: int| ((vals[i] as int % size) as i64, 0i64, 0i64))
}

/// Values in the order of their hash slots: by the value modulo the table size, ties as they came.
pub open spec fn slot_order(vals: Seq<i64>) -> Seq<i64> {
    let o = order::by_key(slot_keys(vals));
    Seq::new(vals.len(), |i: int| vals[o[i]])
}

/// Distinct values in order of first occurrence.
pub open spec fn distinct(vals: Seq<i64>) -> Seq<i64>
    decreases vals.len(),
{
    if vals.len() == 0 {
        Seq::empty()
    } else {
        let d = distinct(vals.drop_last());
        if d.contains(vals.last()) { d } else { d.push(vals.last()) }
    }
}

/// Whether a list of integers holds `x`.
pub fn holds(v: &Vec<i64>, x: i64) -> (r: bool)
    ensures
        r == v@.contains(x),
{
    let mut i: usize = 0;
    while i < v.len()
        invariant
            i <= v@.len(),
            forall|j: int| 0 <= j < i ==> v@[j] != x,
        decreases v@.len() - i,
    {
        if v[i] == x {
            assert(v@[i as int] == x);
            return true;
        }
        i += 1;
    }
    false
}

/// Distinct values in order of first occurrence.
pub fn uniq(vals: &Vec<i64>) -> (r: Vec<i64>)
    ensures
        r@ == distinct(vals@),
        r@.len() <= vals@.len(),
        forall|i: int| 0 <= i < r@.len() ==> vals@.contains(#[trigger] r@[i]),
{
    let mut r: Vec<i64> = Vec::new();
    let mut i: usize = 0;
    assert(vals@.take(0) =~= Seq::empty());
    while i < vals.len()
        invariant
            i <= vals@.len(),
            r@ == distinct(vals@.take(i as int)),
            r@.len() <= i,
            forall|i: int| 0 <= i < r@.len() ==> vals@.contains(#[trigger] r@[i]),
        decreases vals@.len() - i,
    {
        assert(vals@.take(i + 1).drop_last() =~= vals@.take(i as int));
        assert(vals@.contains(vals@[i as int]));
        if !holds(&r, vals[i]) {
            r.push(vals[i]);
        }
        i += 1;
    }
    assert(vals@.take(i as int) =~= vals@);
    r
}

/// The slot of a value in a table.
fn wrapped_slot(v: i64, size: i64) -> (r: i64)
    requires
        0 < size,
    ensures
        r == v as int % size as int,
{
    if v >= 0 {
        v % size
    } else {
        let w: i64 = -1 - v;
        let m: i64 = w % size;
        proof {
            let q = w as int / size as int;
            assert(w == q * size + m) by {
                vstd::arithmetic::div_mod::lemma_fundamental_div_mod(w as int, size as int);
                assert(size as int * q == q * size as int) by (nonlinear_arith);
            }
            assert(v as int == (-q - 1) * size as int + (size - 1 - m)) by (nonlinear_arith)
                requires
                    v == -1 - w,
                    w == q * size + m,
            ;
            vstd::arithmetic::div_mod::lemma_fundamental_div_mod_converse(
                v as int,
                size as int,
                -q - 1,
                size - 1 - m,
            );
        }
        size - 1 - m
    }
}

/// Iteration order of a hash set of small integers that grew by the given insertions.
pub fn py_int_set_order(vals: &Vec<i64>) -> (r: Vec<i64>)
    requires
        vals@.len() <= 0x100_0000_0000_0000,
    ensures
        r@ == slot_order(vals@),
        r@.len() == vals@.len(),
        forall|i: int| 0 <= i < r@.len() ==> vals@.contains(#[trigger] r@[i]),
{
    let mut size: i64 = 8;
    let mut fill: i64 = 0;
    let mut k: usize = 0;
    while k < vals.len()
        invariant
            k <= vals@.len(),
            vals@.len() <= 0x100_0000_0000_0000,
            fill == k,
            8 <= size,
            size <= 8 * fill || size == 8,
            table_size(8, 0, vals@.len() as int) == table_size(
                size as int,
                fill as int,
                vals@.len() - k,
            ),
        decreases vals@.len() - k,
    {
        fill += 1;
        if fill * 5 >= (size - 1) * 3 {
            let least: i64 = fill * 4;
            let mut ns: i64 = 8;
            while ns <= least
                invariant
                    8 <= ns,
                    0 < least <= 0x400_0000_0000_0000,
                    ns <= 2 * least || ns <= 8,
                    pow2_above(8, least as int) == pow2_above(ns as int, least as int),
                decreases geom::hi(0, least - ns + 1),
            {
                ns = 2 * ns;
            }
            size = ns;
        }
        k += 1;
    }
    let mut keys: Vec<(i64, i64, i64)> = Vec::new();
    let mut i: usize = 0;
    while i < vals.len()
        invariant
            i <= vals@.len(),
            8 <= size <= 0x800_0000_0000_0000,
            size == table_size(8, 0, vals@.len() as int),
            keys@ == slot_keys(vals@).take(i as int),
        decreases vals@.len() - i,
    {
        proof {
            assert(slot_keys(vals@).take(i + 1) =~= slot_keys(vals@).take(i as int).push(
                slot_keys(vals@)[i as int],
            ));
        }
        let m: i64 = wrapped_slot(vals[i], size);
        keys.push((m, 0, 0));
        i += 1;
    }
    assert(slot_keys(vals@).take(i as int) =~= slot_keys(vals@));
    let o = order_by_key(&keys);
    let mut r: Vec<i64> = Vec::new();
    let mut j: usize = 0;
    while j < o.len()
        invariant
            j <= o@.len(),
            o@.len() == vals@.len(),
            order::as_ints(o@) == order::by_key(slot_keys(vals@)),
            forall|i: int| 0 <= i < o@.len() ==> #[trigger] o@[i] < vals@.len(),
            r@ == slot_order(vals@).take(j as int),
            forall|i: int| 0 <= i < r@.len() ==> vals@.contains(#[trigger] r@[i]),
        decreases o@.len() - j,
    {
        assert(vals@.contains(vals@[o@[j as int] as int]));
        proof {
            assert(order::as_ints(o@)[j as int] == o@[j as int]);
            assert(slot_order(vals@).take(j + 1) =~= slot_order(vals@).take(j as int).push(
                slot_order(vals@)[j as int],
            ));
        }
        r.push(vals[o[j]]);
        j += 1;
    }
    assert(slot_order(vals@).take(j as int) =~= slot_order(vals@));
    r
}

/// Half width and half height of the turned body box around the anchor.
#[verifier::opaque]
pub open spec fn body_half(b: BBox, rot: int, m: Mirror) -> (int, int) {
    let p = symlib::turned(b.x0 as int, b.y0 as int, rot, m);
    let q = symlib::turned(b.x0 as int, b.y1 as int, rot, m);
    let r = symlib::turned(b.x1 as int, b.y0 as int, rot, m);
    let s = symlib::turned(b.x1 as int, b.y1 as int, rot, m);
    (
        geom::hi(geom::hi(geom::mag(p.0), geom::mag(q.0)), geom::hi(geom::mag(r.0), geom::mag(s.0))),
        geom::hi(geom::hi(geom::mag(p.1), geom::mag(q.1)), geom::hi(geom::mag(r.1), geom::mag(s.1))),
    )
}

/// Half width and half height of a symbol's body after rotation and mirroring.
pub fn rot_body(sym: &SymbolInfo, unit: i32, rot: i32, m: Mirror) -> (r: (i64, i64))
    requires
        sym.wf(),
    ensures
        (r.0 as int, r.1 as int) == body_half(sym.unit_spec(unit as int).body, rot as int, m),
        0 <= r.0 <= symlib::NEAR_MAX + 10,
        0 <= r.1 <= symlib::NEAR_MAX + 10,
{
    proof {
        reveal(body_half);
    }
    let b: BBox = sym.unit_info(unit).body;
    let p: (i64, i64) = rot_point(b.x0, b.y0, rot, m);
    let q: (i64, i64) = rot_point(b.x0, b.y1, rot, m);
    let r: (i64, i64) = rot_point(b.x1, b.y0, rot, m);
    let s: (i64, i64) = rot_point(b.x1, b.y1, rot, m);
    (
        max_i(max_i(abs_i(p.0), abs_i(q.0)), max_i(abs_i(r.0), abs_i(s.0))),
        max_i(max_i(abs_i(p.1), abs_i(q.1)), max_i(abs_i(r.1), abs_i(s.1))),
    )
}

/// The two pins end up left and right of each other.
pub open spec fn lies_flat(pins: Seq<Pin>, rot: int, m: Mirror) -> bool {
    pins.len() == 2 && symlib::turned(pins[0].x as int, pins[0].y as int, rot, m).1
        == symlib::turned(pins[1].x as int, pins[1].y as int, rot, m).1
}

/// `"h"` when a two-pin part's pins end up left and right of each other, else `"v"`.
pub fn two_pin_axis(sym: &SymbolInfo, unit: i32, rot: i32, mirror: &str) -> (r: &'static str)
    requires
        sym.wf(),
    ensures
        r@ == (if lies_flat(
            sym.unit_spec(unit as int).pins@,
            rot as int,
            symlib::mirror_spec(mirror@),
        ) {
            "h"@
        } else {
            "v"@
        }),
{
    let pins = sym.pins_for_unit(unit);
    if pins.len() != 2 {
        return "v";
    }
    let m = mirror_of(mirror);
    let a: (i64, i64) = rot_point(pins[0].x, pins[0].y, rot, m);
    let b: (i64, i64) = rot_point(pins[1].x, pins[1].y, rot, m);
    if a.1 == b.1 { "h" } else { "v" }
}

/// Some pin points in direction `d`.
pub open spec fn points(pins: Seq<Pin>, rot: int, m: Mirror, d: Dir) -> bool {
    exists|i: int|
        0 <= i < pins.len() && symlib::pin_dir_spec(#[trigger] pins[i], rot, m) == d
}

/// Where the reference and value of a connector stand.
#[derive(Clone, Copy, Debug, PartialEq, Eq, Structural)]
pub enum TextSlot {
    Above,
    Below,
    Right,
    Left,
}

/// The side opposite the pins when they are all on one side, otherwise the first pin-free side of
/// top, bottom, right and left; above when every side has pins.
pub open spec fn slot_of(top: bool, bottom: bool, right: bool, left: bool) -> TextSlot {
    if right && !left && !top && !bottom {
        TextSlot::Left
    } else if left && !right && !top && !bottom {
        TextSlot::Right
    } else if top && !bottom && !right && !left {
        TextSlot::Below
    } else if bottom && !top && !right && !left {
        TextSlot::Above
    } else if !top {
        TextSlot::Above
    } else if !bottom {
        TextSlot::Below
    } else if !right {
        TextSlot::Right
    } else if !left {
        TextSlot::Left
    } else {
        TextSlot::Above
    }
}

pub open spec fn text_slot_spec(pins: Seq<Pin>, rot: int, m: Mirror) -> TextSlot {
    slot_of(
        points(pins, rot, m, (0i32, -1i32)),
        points(pins, rot, m, (0i32, 1i32)),
        points(pins, rot, m, (1i32, 0i32)),
        points(pins, rot, m, (-1i32, 0i32)),
    )
}

pub fn points_to(pins: &Vec<Pin>, rot: i32, m: Mirror, d: Dir) -> (r: bool)
    ensures
        r == points(pins@, rot as int, m, d),
{
    let mut i: usize = 0;
    while i < pins.len()
        invariant
            i <= pins@.len(),
            forall|j: int|
                0 <= j < i ==> symlib::pin_dir_spec(#[trigger] pins@[j], rot as int, m) != d,
        decreases pins@.len() - i,
    {
        let e: Dir = turned_dir(pins[i].angle, rot, m);
        if e.0 == d.0 && e.1 == d.1 {
            assert(symlib::pin_dir_spec(pins@[i as int], rot as int, m) == d);
            return true;
        }
        i += 1;
    }
    false
}

pub fn text_slot(pins: &Vec<Pin>, rot: i32, m: Mirror) -> (r: TextSlot)
    ensures
        r == text_slot_spec(pins@, rot as int, m),
{
    let top = points_to(pins, rot, m, (0, -1));
    let bottom = points_to(pins, rot, m, (0, 1));
    let right = points_to(pins, rot, m, (1, 0));
    let left = points_to(pins, rot, m, (-1, 0));
    if right && !left && !top && !bottom {
        TextSlot::Left
    } else if left && !right && !top && !bottom {
        TextSlot::Right
    } else if top && !bottom && !right && !left {
        TextSlot::Below
    } else if bottom && !top && !right && !left {
        TextSlot::Above
    } else if !top {
        TextSlot::Above
    } else if !bottom {
        TextSlot::Below
    } else if !right {
        TextSlot::Right
    } else if !left {
        TextSlot::Left
    } else {
        TextSlot::Above
    }
}

/// Where a connector's reference and value go: the side opposite its pins when they are all on one
/// side, so that the texts never cross a wire, otherwise the first pin-free side.
pub fn connector_text_slot(sym: &SymbolInfo, unit: i32, rot: i32, mirror: &str) -> (r: &'static str)
    requires
        sym.wf(),
    ensures
        r@ == (match text_slot_spec(
            sym.unit_spec(unit as int).pins@,
            rot as int,
            symlib::mirror_spec(mirror@),
        ) {
            TextSlot::Above => "above"@,
            TextSlot::Below => "below"@,
            TextSlot::Right => "right"@,
            TextSlot::Left => "left"@,
        }),
{
    match text_slot(sym.pins_for_unit(unit), rot, mirror_of(mirror)) {
        TextSlot::Above => "above",
        TextSlot::Below => "below",
        TextSlot::Right => "right",
        TextSlot::Left => "left",
    }
}

/// The texts never stand on a side from which every pin leaves.
pub proof fn connector_text_avoids_only_pin_side(pins: Seq<Pin>, rot: int, m: Mirror, d: Dir)
    requires
        pins.len() > 0,
        geom::is_dir(d),
        forall|i: int|
            0 <= i < pins.len() ==> symlib::pin_dir_spec(#[trigger] pins[i], rot, m) == d,
    ensures
        text_slot_spec(pins, rot, m) == (if d == (1i32, 0i32) {
            TextSlot::Left
        } else if d == (-1i32, 0i32) {
            TextSlot::Right
        } else if d == (0i32, -1i32) {
            TextSlot::Below
        } else {
            TextSlot::Above
        }),
{
    assert(symlib::pin_dir_spec(pins[0], rot, m) == d);
}

/// The first position from `i` on whose character is no decimal digit.
pub open spec fn skip_digits(s: Seq<char>, i: int) -> int
    decreases s.len() - i,
{
    if 0 <= i < s.len() && text::is_digit(s[i]) {
        skip_digits(s, i + 1)
    } else {
        i
    }
}

/// The first position from `i` on whose character is no ASCII capital.
pub open spec fn skip_capitals(s: Seq<char>, i: int) -> int
    decreases s.len() - i,
{
    if 0 <= i < s.len() && text::is_capital(s[i]) {
        skip_capitals(s, i + 1)
    } else {
        i
    }
}

pub open spec fn char_at(s: Seq<char>, i: int, c: char) -> bool {
    0 <= i < s.len() && s[i] == c
}

/// An optional sign, digits, optionally a point and digits, a `V`, digits and capitals.
pub open spec fn voltage_name(s: Seq<char>) -> bool {
    let a = if char_at(s, 0, '+') || char_at(s, 0, '-') { 1int } else { 0 };
    let b = skip_digits(s, a);
    let c = if char_at(s, b, '.') { skip_digits(s, b + 1) } else { b };
    &&& b > a
    &&& char_at(s, b, '.') ==> c > b + 1
    &&& char_at(s, c, 'V')
    &&& skip_capitals(s, skip_digits(s, c + 1)) == s.len()
}

fn after_digits(v: &Vec<char>, from: usize) -> (i: usize)
    requires
        from <= v@.len(),
    ensures
        i == skip_digits(v@, from as int),
        from <= i <= v@.len(),
{
    let mut i: usize = from;
    while i < v.len() && '0' <= v[i] && v[i] <= '9'
        invariant
            from <= i <= v@.len(),
            skip_digits(v@, from as int) == skip_digits(v@, i as int),
        decreases v@.len() - i,
    {
        i += 1;
    }
    i
}

/// Whether a net is named like a voltage, such as `+3V3` or `-12V`.
pub fn is_voltage_name(s: &str) -> (r: bool)
    ensures
        r == voltage_name(s@),
{
    let v = chars_of(s);
    let a: usize = if v.len() > 0 && (v[0] == '+' || v[0] == '-') { 1 } else { 0 };
    let b: usize = after_digits(&v, a);
    if b == a {
        return false;
    }
    let mut c: usize = b;
    if c < v.len() && v[c] == '.' {
        c = after_digits(&v, b + 1);
        if c == b + 1 {
            return false;
        }
    }
    if c >= v.len() || v[c] != 'V' {
        return false;
    }
    let d: usize = after_digits(&v, c + 1);
    let mut e: usize = d;
    while e < v.len() && 'A' <= v[e] && v[e] <= 'Z'
        invariant
            d <= e <= v@.len(),
            skip_capitals(v@, d as int) == skip_capitals(v@, e as int),
        decreases v@.len() - e,
    {
        e += 1;
    }
    e == v.len()
}

/// Whether a list of strings holds a text.
pub fn listed(v: &Vec<String>, x: &str) -> (r: bool)
    ensures
        r == text::views(v@).contains(x@),
{
    let key = x.to_owned();
    let mut i: usize = 0;
    while i < v.len()
        invariant
            i <= v@.len(),
            key@ == x@,
            forall|j: int| 0 <= j < i ==> text::views(v@)[j] != x@,
        decreases v@.len() - i,
    {
        if v[i] == key {
            assert(text::views(v@)[i as int] == x@);
            return true;
        }
        i += 1;
    }
    false
}

/// A declared rail, a ground, a net with a symbol of its own in the power library, a voltage or
/// one of the usual supply names.
pub open spec fn power_net(net: Seq<char>, extra: Seq<Seq<char>>, index: SymbolIndex) -> bool {
    ||| extra.contains(net)
    ||| net == "PWR_FLAG"@
    ||| geo::gnd_spec(net)
    ||| index.found("power:"@ + net) is Some
    ||| voltage_name(net)
    ||| net == "VCC"@
    ||| net == "VDD"@
    ||| net == "VBUS"@
    ||| net == "VBAT"@
    ||| net == "VEE"@
    ||| net == "VSS"@
    ||| net == "VIN"@
    ||| net == "VOUT"@
}

/// Whether a net is drawn with power symbols.
pub fn is_power_net(net: &str, extra: &Vec<String>, index: &SymbolIndex) -> (r: bool)
    ensures
        r == power_net(net@, text::views(extra@), *index),
{
    if listed(extra, net) || same(net, "PWR_FLAG") || is_gnd(net) {
        return true;
    }
    let mut lib = "power:".to_owned();
    lib.append(net);
    if index.get(lib.as_str()).is_some() {
        return true;
    }
    is_voltage_name(net) || same(net, "VCC") || same(net, "VDD") || same(net, "VBUS") || same(
        net,
        "VBAT",
    ) || same(net, "VEE") || same(net, "VSS") || same(net, "VIN") || same(net, "VOUT")
}

/// One part of a block: symbol, pin to net map, placement, and the room its texts and
/// attachments need.
#[derive(Clone, Debug)]
pub struct PartInst {
    pub id: String,
    pub lib: String,
    pub info: Arc<SymbolInfo>,
    pub unit: i32,
    pub value: String,
    pub footprint: String,
    pub fields: Vec<(String, String)>,
    /// Visible pins of this unit.
    pub pins: Vec<Pin>,
    /// Pin number to net name, `nc` or `float`.
    pub pinmap: OrderMap<String>,
    pub at: Pt,
    pub rot: i32,
    pub mirror: String,
    pub two_pin: bool,
    /// All connected pins are on power nets (decoupling capacitors and the like).
    pub power_only: bool,
    pub is_connector: bool,
    /// Parts that may be freely turned: passives, diodes, transistors, small switches.
    pub rotatable: bool,
    /// Expected attachment reach per pin.
    pub attach: OrderMap<i64>,
    /// `id`, or `id#unit` for units other than 1.
    pub key: String,
}

/// The last piece of a library id, behind its last colon.
pub open spec fn lib_name(lib: Seq<char>) -> Seq<char> {
    text::pieces(lib, ':').last()
}

/// The first piece of a library id.
pub open spec fn lib_family(lib: Seq<char>) -> Seq<char> {
    text::pieces(lib, ':')[0]
}

/// The text shown as the value: the value itself, or the symbol's name where none is given.
pub open spec fn value_text(p: PartInst) -> Seq<char> {
    if p.value@.len() == 0 {
        lib_name(p.lib@)
    } else {
        p.value@
    }
}

/// Width of the wider of reference and value.
#[verifier::opaque]
pub open spec fn title_width(p: PartInst) -> int {
    geo::letters(geom::hi(p.id@.len() as int, value_text(p).len() as int)) + 76_200
}

pub open spec fn bx(x0: int, y0: int, x1: int, y1: int) -> BBox {
    BBox { x0: x0 as i64, y0: y0 as i64, x1: x1 as i64, y1: y1 as i64 }
}

/// Room for the reference and value of passives, connectors and parts lying sideways.
#[verifier::opaque]
pub open spec fn title_boxes(p: PartInst, at: Pt, rot: int, m: Mirror) -> Seq<BBox> {
    let u = p.info.unit_spec(p.unit as int);
    let (hx, hy) = body_half(u.body, rot, m);
    let tw = title_width(p);
    if p.two_pin && !p.is_connector && !lies_flat(u.pins@, rot, m) {
        let right = at.x + hx + 88_900;
        seq![bx(right, at.y - 279_400, right + tw, at.y + 279_400)]
    } else if p.is_connector || (!p.two_pin && (rot == 90 || rot == 270)) {
        let (bl, br, bt, bb) = (at.x - hx, at.x + hx, at.y - hy, at.y + hy);
        let (x0, x1) = if points(p.pins@, rot, m, (1i32, 0i32)) {
            (br - tw, br)
        } else if points(p.pins@, rot, m, (-1i32, 0i32)) {
            (bl, bl + tw)
        } else {
            (at.x - tw / 2, at.x + tw / 2)
        };
        match text_slot_spec(u.pins@, rot, m) {
            TextSlot::Above => seq![bx(x0, bt - 609_600, x1, bt - 25_400)],
            TextSlot::Below => seq![bx(x0, bb + 25_400, x1, bb + 609_600)],
            TextSlot::Right => seq![bx(br + 76_200, bt + 25_400, br + 76_200 + tw, bt + 482_600)],
            TextSlot::Left => seq![bx(bl - 76_200 - tw, bt + 25_400, bl - 76_200, bt + 482_600)],
        }
    } else if p.two_pin && !p.is_connector {
        let half = hy + 241_600;
        seq![
            bx(at.x - tw / 2, at.y - half, at.x + tw / 2, at.y - hy),
            bx(at.x - tw / 2, at.y + hy, at.x + tw / 2, at.y + half),
        ]
    } else {
        Seq::empty()
    }
}

/// How a property text is set against its anchor.
#[derive(Clone, Copy, Debug, PartialEq, Eq, Structural)]
pub enum Justify {
    Left,
    Right,
    Center,
}

pub open spec fn justify_spec(j: Seq<char>, flipped: bool) -> Justify {
    if text::has(j, "left"@) {
        if flipped { Justify::Right } else { Justify::Left }
    } else if text::has(j, "right"@) {
        if flipped { Justify::Left } else { Justify::Right }
    } else {
        Justify::Center
    }
}

/// The box of a property text of `n` characters that the library places at `(lp.x, lp.y)`.
#[verifier::opaque]
pub open spec fn prop_box(lp: LibProp, n: int, at: Pt, rot: int, m: Mirror) -> BBox {
    let d = symlib::turned(lp.x as int, lp.y as int, rot, m);
    let (tx, ty) = (at.x + d.0, at.y + d.1);
    let w = geo::letters(n) + 76_200;
    let h = 190_500int;
    if (lp.rot + rot) % 180 == 90 {
        bx(tx - h / 2, ty - w / 2, tx + h / 2, ty + w / 2)
    } else {
        let x0 = match justify_spec(lp.justify@, rot == 180 || m == Mirror::Y) {
            Justify::Left => tx,
            Justify::Right => tx - w,
            Justify::Center => tx - w / 2,
        };
        bx(x0, ty - h / 2, x0 + w, ty + h / 2)
    }
}

/// Boxes of the reference and value of an upright part, where the library puts them.
#[verifier::opaque]
pub open spec fn prop_boxes(p: PartInst, at: Pt, rot: int, m: Mirror) -> Seq<BBox> {
    let one = |name: Seq<char>, t: Seq<char>|
        match p.info.prop_spec(name) {
            Some(lp) => if t.len() == 0 {
                Seq::<BBox>::empty()
            } else {
                seq![prop_box(lp, t.len() as int, at, rot, m)]
            },
            None => Seq::<BBox>::empty(),
        };
    if p.two_pin || p.is_connector || rot == 90 || rot == 270 {
        Seq::empty()
    } else {
        one("Reference"@, p.id@) + one("Value"@, value_text(p))
    }
}

/// Room for what will be attached to one pin: a label or a power symbol `reach` away.
#[verifier::opaque]
pub open spec fn reach_boxes(pos: Pt, d: Dir, reach: int) -> Seq<BBox> {
    if reach == 0 {
        Seq::empty()
    } else if d.1 != 0 && reach != 762_000 {
        let fy = pos.y + d.1 * 381_000;
        let side = reach - 127_000;
        seq![bx(pos.x - side, fy - 203_200, pos.x + side, fy + 203_200)]
    } else {
        let (fx, fy) = (pos.x + d.0 * reach, pos.y + d.1 * reach);
        let hw = if reach >= 762_000 { 444_500int } else { 254_000 };
        let near = seq![bx(fx - hw, fy - hw, fx + hw, fy + hw)];
        if reach >= 762_000 && d.1 == 0 {
            near + seq![bx(fx - hw, fy - 1_016_000, fx + hw, fy + 1_016_000)]
        } else {
            near
        }
    }
}

/// The reach noted for a pin, none counting as zero.
pub open spec fn reach_of(p: PartInst, number: Seq<char>) -> int {
    match p.attach.found(number) {
        Some(r) => r as int,
        None => 0,
    }
}

/// Attachment room of the first `n` pins.
pub open spec fn attach_boxes(p: PartInst, at: Pt, rot: int, m: Mirror, n: int) -> Seq<BBox>
    decreases n,
{
    if n <= 0 {
        Seq::empty()
    } else {
        let pin = p.pins@[n - 1];
        attach_boxes(p, at, rot, m, n - 1) + reach_boxes(
            symlib::pin_at(pin, at, rot, m),
            symlib::pin_dir_spec(pin, rot, m),
            reach_of(p, pin.number@),
        )
    }
}

/// Component boxes of a part's extent: the symbol with its pins, the texts, and the attachments.
#[verifier::opaque]
pub open spec fn part_boxes(p: PartInst, at: Pt, rot: int, m: Mirror, attachments: bool) -> Seq<
    BBox,
> {
    seq![symlib::turned_box(p.info.unit_spec(p.unit as int).bbox, at, rot, m)] + title_boxes(
        p,
        at,
        rot,
        m,
    ) + prop_boxes(p, at, rot, m) + (if attachments {
        attach_boxes(p, at, rot, m, p.pins@.len() as int)
    } else {
        Seq::empty()
    })
}

/// The extent of a part at a hypothetical placement.
pub open spec fn extent_spec(p: PartInst, at: Pt, rot: int, m: Mirror, attachments: bool) -> BBox {
    geo::hull(part_boxes(p, at, rot, m, attachments))
}

pub open spec fn boxes_ok(bs: Seq<BBox>) -> bool {
    forall|i: int| 0 <= i < bs.len() ==> geom::box_ok(#[trigger] bs[i])
}

impl PartInst {
    pub open spec fn wf(&self) -> bool {
        &&& self.info.wf()
        &&& symlib::near_pt(self.at)
        &&& forall|i: int| 0 <= i < self.pins@.len() ==> symlib::pin_ok(#[trigger] self.pins@[i])
        &&& self.id@.len() <= TEXT_MAX
        &&& self.value@.len() <= TEXT_MAX
        &&& lib_name(self.lib@).len() <= TEXT_MAX
        &&& self.pinmap.wf()
        &&& self.attach.wf()
        &&& forall|i: int|
            0 <= i < self.attach.vals@.len() ==> 0 <= #[trigger] self.attach.vals@[i]
                <= symlib::NEAR_MAX
    }

    /// How the part is mirrored.
    pub open spec fn flip(&self) -> Mirror {
        symlib::mirror_spec(self.mirror@)
    }

    pub open spec fn pos_spec(&self, pin: Pin) -> Pt {
        symlib::pin_at(pin, self.at, self.rot as int, self.flip())
    }

    pub open spec fn dir_spec(&self, pin: Pin) -> Dir {
        symlib::pin_dir_spec(pin, self.rot as int, self.flip())
    }

    /// The net, `nc` or `float` noted for a pin number.
    pub open spec fn net_spec(&self, number: Seq<char>) -> Option<Seq<char>> {
        if self.pinmap.has(number) {
            Some(self.pinmap.value(number)@)
        } else {
            None
        }
    }

    pub fn pin_pos(&self, pin: &Pin) -> (r: Pt)
        requires
            self.wf(),
            symlib::pin_ok(*pin),
        ensures
            r == self.pos_spec(*pin),
            symlib::tip_pt(r),
    {
        pin_point(pin, self.at, self.rot, mirror_of(self.mirror.as_str()))
    }

    pub fn pin_pos_at(&self, pin: &Pin, at: Pt, rot: i32, mirror: &str) -> (r: Pt)
        requires
            symlib::near_pt(at),
            symlib::pin_ok(*pin),
        ensures
            r == symlib::pin_at(*pin, at, rot as int, symlib::mirror_spec(mirror@)),
            symlib::tip_pt(r),
    {
        pin_point(pin, at, rot, mirror_of(mirror))
    }

    pub fn pin_dir(&self, pin: &Pin) -> (d: Dir)
        ensures
            d == self.dir_spec(*pin),
            geom::is_dir(d),
    {
        turned_dir(pin.angle, self.rot, mirror_of(self.mirror.as_str()))
    }

    pub fn pin_dir_at(&self, pin: &Pin, rot: i32, mirror: &str) -> (d: Dir)
        ensures
            d == symlib::pin_dir_spec(*pin, rot as int, symlib::mirror_spec(mirror@)),
            geom::is_dir(d),
    {
        turned_dir(pin.angle, rot, mirror_of(mirror))
    }

    fn value_shown(&self) -> (r: String)
        ensures
            r@ == value_text(*self),
    {
        if self.value.as_str().is_empty() {
            let mut ps = split(self.lib.as_str(), ':');
            let n: usize = ps.len() - 1;
            assert(text::views(ps@).last() == ps@[n as int]@);
            ps[n].clone()
        } else {
            self.value.clone()
        }
    }

    #[verifier::rlimit(60)]
    #[verifier::spinoff_prover]
    fn title_parts(&self, at: Pt, rot: i32, m: Mirror) -> (r: Vec<BBox>)
        requires
            self.wf(),
            symlib::near_pt(at),
        ensures
            r@ == title_boxes(*self, at, rot as int, m),
            boxes_ok(r@),
    {
        let v = self.value_shown();
        let n: usize = self.id.as_str().unicode_len();
        let k: usize = v.as_str().unicode_len();
        let most: i64 = if n >= k { n as i64 } else { k as i64 };
        let tw: i64 = 120_650 * most + 76_200;
        let h: (i64, i64) = rot_body(&self.info, self.unit, rot, m);
        let (hx, hy): (i64, i64) = (h.0, h.1);
        let upins = self.info.pins_for_unit(self.unit);
        let flat = if upins.len() == 2 {
            rot_point(upins[0].x, upins[0].y, rot, m).1 == rot_point(
                upins[1].x,
                upins[1].y,
                rot,
                m,
            ).1
        } else {
            false
        };
        let mut r: Vec<BBox> = Vec::new();
        if self.two_pin && !self.is_connector && !flat {
            let right: i64 = at.x + hx + 88_900;
            r.push(BBox { x0: right, y0: at.y - 279_400, x1: right + tw, y1: at.y + 279_400 });
        } else if self.is_connector || (!self.two_pin && (rot == 90 || rot == 270)) {
            let bl: i64 = at.x - hx;
            let br: i64 = at.x + hx;
            let bt: i64 = at.y - hy;
            let bb: i64 = at.y + hy;
            let (x0, x1): (i64, i64) = if points_to(&self.pins, rot, m, (1, 0)) {
                (br - tw, br)
            } else if points_to(&self.pins, rot, m, (-1, 0)) {
                (bl, bl + tw)
            } else {
                (at.x - tw / 2, at.x + tw / 2)
            };
            let b = match text_slot(upins, rot, m) {
                TextSlot::Above => BBox { x0, y0: bt - 609_600, x1, y1: bt - 25_400 },
                TextSlot::Below => BBox { x0, y0: bb + 25_400, x1, y1: bb + 609_600 },
                TextSlot::Right => BBox {
                    x0: br + 76_200,
                    y0: bt + 25_400,
                    x1: br + 76_200 + tw,
                    y1: bt + 482_600,
                },
                TextSlot::Left => BBox {
                    x0: bl - 76_200 - tw,
                    y0: bt + 25_400,
                    x1: bl - 76_200,
                    y1: bt + 482_600,
                },
            };
            r.push(b);
        } else if self.two_pin && !self.is_connector {
            let half: i64 = hy + 241_600;
            r.push(
                BBox { x0: at.x - tw / 2, y0: at.y - half, x1: at.x + tw / 2, y1: at.y - hy },
            );
            r.push(
                BBox { x0: at.x - tw / 2, y0: at.y + hy, x1: at.x + tw / 2, y1: at.y + half },
            );
        }
        proof {
            reveal(title_boxes);
            reveal(title_width);
        }
        assert(r@ =~= title_boxes(*self, at, rot as int, m));
        r
    }

    fn prop_part(&self, name: &str, t: &str, at: Pt, rot: i32, m: Mirror) -> (r: Option<BBox>)
        requires
            self.wf(),
            symlib::near_pt(at),
            t@.len() <= TEXT_MAX,
        ensures
            r == (match self.info.prop_spec(name@) {
                Some(lp) => if t@.len() == 0 {
                    None
                } else {
                    Some(prop_box(lp, t@.len() as int, at, rot as int, m))
                },
                None => None,
            }),
            r is Some ==> geom::box_ok(r->0),
    {
        proof {
            reveal(prop_box);
        }
        let lp = match self.info.lib_prop(name) {
            Some(p) => p,
            None => return None,
        };
        if t.is_empty() {
            return None;
        }
        let d: (i64, i64) = rot_point(lp.x, lp.y, rot, m);
        let tx: i64 = at.x + d.0;
        let ty: i64 = at.y + d.1;
        let n: i64 = t.unicode_len() as i64;
        let w: i64 = 120_650 * n + 76_200;
        let h: i64 = 190_500;
        if floor_mod(lp.rot as i64 + rot as i64, 180) == 90 {
            Some(BBox { x0: tx - h / 2, y0: ty - w / 2, x1: tx + h / 2, y1: ty + w / 2 })
        } else {
            let flipped = rot == 180 || m == Mirror::Y;
            let j = if contains(lp.justify.as_str(), "left") {
                if flipped { Justify::Right } else { Justify::Left }
            } else if contains(lp.justify.as_str(), "right") {
                if flipped { Justify::Left } else { Justify::Right }
            } else {
                Justify::Center
            };
            let x0: i64 = match j {
                Justify::Left => tx,
                Justify::Right => tx - w,
                Justify::Center => tx - w / 2,
            };
            Some(BBox { x0, y0: ty - h / 2, x1: x0 + w, y1: ty + h / 2 })
        }
    }

    fn push_reach(&self, out: &mut Vec<BBox>, pos: Pt, d: Dir, reach: i64)
        requires
            symlib::wide_pt(pos),
            geom::is_dir(d),
            0 <= reach <= symlib::NEAR_MAX,
            boxes_ok(old(out)@),
        ensures
            final(out)@ == old(out)@ + reach_boxes(pos, d, reach as int),
            boxes_ok(final(out)@),
    {
        proof {
            reveal(reach_boxes);
        }
        let ghost o0 = out@;
        let dx: i64 = d.0 as i64;
        let dy: i64 = d.1 as i64;
        if reach == 0 {
        } else if dy != 0 && reach != 762_000 {
            let fy: i64 = pos.y + dy * 381_000;
            let side: i64 = reach - 127_000;
            out.push(
                BBox { x0: pos.x - side, y0: fy - 203_200, x1: pos.x + side, y1: fy + 203_200 },
            );
        } else {
            proof {
                assert(dx == 0 || dx == 1 || dx == -1);
                assert(dy == 0 || dy == 1 || dy == -1);
                assert(dx * reach == (if dx == 1 { reach as int } else if dx == -1 { -reach } else {
                    0
                })) by (nonlinear_arith)
                    requires
                        dx == 0 || dx == 1 || dx == -1,
                ;
                assert(dy * reach == (if dy == 1 { reach as int } else if dy == -1 { -reach } else {
                    0
                })) by (nonlinear_arith)
                    requires
                        dy == 0 || dy == 1 || dy == -1,
                ;
            }
            let fx: i64 = pos.x + dx * reach;
            let fy: i64 = pos.y + dy * reach;
            let hw: i64 = if reach >= 762_000 { 444_500 } else { 254_000 };
            out.push(BBox { x0: fx - hw, y0: fy - hw, x1: fx + hw, y1: fy + hw });
            if reach >= 762_000 && dy == 0 {
                out.push(
                    BBox { x0: fx - hw, y0: fy - 1_016_000, x1: fx + hw, y1: fy + 1_016_000 },
                );
            }
        }
        assert(out@ =~= o0 + reach_boxes(pos, d, reach as int));
    }

    fn all_boxes(&self, at: Pt, rot: i32, m: Mirror, attachments: bool) -> (r: Vec<BBox>)
        requires
            self.wf(),
            symlib::near_pt(at),
        ensures
            r@ == part_boxes(*self, at, rot as int, m, attachments),
            boxes_ok(r@),
            r@.len() >= 1,
    {
        let mut r: Vec<BBox> = Vec::new();
        r.push(turn_box(&self.info.unit_info(self.unit).bbox, at, rot, m));
        let ghost first = r@;
        let mut t = self.title_parts(at, rot, m);
        r.append(&mut t);
        let ghost second = r@;
        if !(self.two_pin || self.is_connector || rot == 90 || rot == 270) {
            match self.prop_part("Reference", self.id.as_str(), at, rot, m) {
                Some(b) => r.push(b),
                None => {},
            }
            let v = self.value_shown();
            match self.prop_part("Value", v.as_str(), at, rot, m) {
                Some(b) => r.push(b),
                None => {},
            }
        }
        let ghost third = r@;
        proof {
            reveal(prop_boxes);
        }
        assert(third =~= second + prop_boxes(*self, at, rot as int, m));
        if attachments {
            let mut i: usize = 0;
            while i < self.pins.len()
                invariant
                    i <= self.pins@.len(),
                    self.wf(),
                    symlib::near_pt(at),
                    boxes_ok(r@),
                    r@ == third + attach_boxes(*self, at, rot as int, m, i as int),
                decreases self.pins@.len() - i,
            {
                let pin = &self.pins[i];
                proof {
                    crate::order_map::lemma_first_of(self.attach.names(), pin.number@);
                }
                let reach: i64 = match self.attach.get(pin.number.as_str()) {
                    Some(v) => *v,
                    None => 0,
                };
                let pos: Pt = pin_point(pin, at, rot, m);
                let d: Dir = turned_dir(pin.angle, rot, m);
                self.push_reach(&mut r, pos, d, reach);
                i += 1;
                proof {
                    assert(r@ =~= third + attach_boxes(*self, at, rot as int, m, i as int));
                }
            }
        }
        proof {
            reveal(part_boxes);
        }
        assert(r@ =~= part_boxes(*self, at, rot as int, m, attachments));
        r
    }

    fn ext(&self, at: Pt, rot: i32, m: Mirror, attachments: bool) -> (r: BBox)
        requires
            self.wf(),
            symlib::near_pt(at),
        ensures
            r == extent_spec(*self, at, rot as int, m, attachments),
            geom::box_ok(r),
    {
        let bs = self.all_boxes(at, rot, m, attachments);
        hull_of(&bs)
    }

    /// Extent with text room and attachment zones.
    pub fn extent(&self) -> (r: BBox)
        requires
            self.wf(),
        ensures
            r == extent_spec(*self, self.at, self.rot as int, self.flip(), true),
            geom::box_ok(r),
    {
        self.ext(self.at, self.rot, mirror_of(self.mirror.as_str()), true)
    }

    /// Extent with text room, without attachment zones.
    pub fn extent_no_attach(&self) -> (r: BBox)
        requires
            self.wf(),
        ensures
            r == extent_spec(*self, self.at, self.rot as int, self.flip(), false),
            geom::box_ok(r),
    {
        self.ext(self.at, self.rot, mirror_of(self.mirror.as_str()), false)
    }

    /// Extent at a hypothetical placement.
    pub fn extent_of(&self, at: Pt, rot: i32, mirror: &str) -> (r: BBox)
        requires
            self.wf(),
            symlib::near_pt(at),
        ensures
            r == extent_spec(*self, at, rot as int, symlib::mirror_spec(mirror@), true),
            geom::box_ok(r),
    {
        self.ext(at, rot, mirror_of(mirror), true)
    }

    /// Component boxes of the extent. The router blocks these one by one, so that a wide value text
    /// does not wall off the pin row next to it.
    pub fn boxes(&self, attachments: bool) -> (r: Vec<BBox>)
        requires
            self.wf(),
        ensures
            r@ == part_boxes(*self, self.at, self.rot as int, self.flip(), attachments),
            boxes_ok(r@),
    {
        self.all_boxes(self.at, self.rot, mirror_of(self.mirror.as_str()), attachments)
    }
}

/// The least box around a list of boxes.
pub fn hull_of(bs: &Vec<BBox>) -> (b: BBox)
    requires
        boxes_ok(bs@),
    ensures
        b == geo::hull(bs@),
        geom::box_ok(b),
{
    if bs.len() == 0 {
        return BBox { x0: 0, y0: 0, x1: 0, y1: 0 };
    }
    let mut b: BBox = bs[0];
    let mut i: usize = 1;
    assert(bs@.take(1)[0] == bs@[0]);
    while i < bs.len()
        invariant
            1 <= i <= bs@.len(),
            boxes_ok(bs@),
            geom::box_ok(b),
            b == geo::hull(bs@.take(i as int)),
        decreases bs@.len() - i,
    {
        let c: BBox = bs[i];
        assert(bs@.take(i + 1).drop_last() =~= bs@.take(i as int));
        b =
        BBox {
            x0: geom::min_i(b.x0, c.x0),
            y0: geom::min_i(b.y0, c.y0),
            x1: max_i(b.x1, c.x1),
            y1: max_i(b.y1, c.y1),
        };
        i += 1;
    }
    assert(bs@.take(i as int) =~= bs@);
    b
}

/// Length of the longest common subsequence of the first `i` characters of `a` and the first `j`
/// of `b`.
pub open spec fn common(a: Seq<char>, b: Seq<char>, i: int, j: int) -> int
    decreases i, j,
{
    if i <= 0 || j <= 0 {
        0
    } else if a[i - 1] == b[j - 1] {
        common(a, b, i - 1, j - 1) + 1
    } else {
        geom::hi(common(a, b, i, j - 1), common(a, b, i - 1, j))
    }
}

/// Similarity of two texts as a fraction: twice the common length over the sum of the lengths;
/// one for two empty texts.
pub open spec fn likeness(a: Seq<char>, b: Seq<char>) -> (int, int) {
    if a.len() + b.len() == 0 {
        (1, 1)
    } else {
        (2 * common(a, b, a.len() as int, b.len() as int), (a.len() + b.len()) as int)
    }
}

/// The candidates that are at least `cn / cd` like the word, in their order.
pub open spec fn alike(word: Seq<char>, cands: Seq<Seq<char>>, cn: int, cd: int) -> Seq<Seq<char>>
    decreases cands.len(),
{
    if cands.len() == 0 {
        Seq::empty()
    } else {
        let rest = alike(word, cands.drop_last(), cn, cd);
        let l = likeness(word, cands.last());
        if l.0 * cd >= cn * l.1 { rest.push(cands.last()) } else { rest }
    }
}

/// `a` is more like the word than `b`.
pub open spec fn liker(word: Seq<char>, a: Seq<char>, b: Seq<char>) -> bool {
    likeness(word, b).0 * likeness(word, a).1 < likeness(word, a).0 * likeness(word, b).1
}

/// The `n` candidates most like the word, best first, of those at least `cn / cd` like it.
pub open spec fn closest(word: Seq<char>, cands: Seq<Seq<char>>, n: int, cn: int, cd: int) -> Seq<
    Seq<char>,
> {
    let good = alike(word, cands, cn, cd);
    let o = order::ranked(|a: int, b: int| liker(word, good[a], good[b]), good.len() as int);
    Seq::new(geom::lo(n, good.len() as int) as nat, |i: int| good[o[i]])
}

proof fn lemma_common(a: Seq<char>, b: Seq<char>, i: int, j: int)
    requires
        0 <= i,
        0 <= j,
    ensures
        0 <= common(a, b, i, j) <= geom::lo(i, j),
    decreases i, j,
{
    if i > 0 && j > 0 {
        lemma_common(a, b, i - 1, j - 1);
        lemma_common(a, b, i, j - 1);
        lemma_common(a, b, i - 1, j);
    }
}

fn common_len(a: &Vec<char>, b: &Vec<char>) -> (r: u64)
    requires
        a@.len() <= TEXT_MAX,
        b@.len() <= TEXT_MAX,
    ensures
        r == common(a@, b@, a@.len() as int, b@.len() as int),
        r <= TEXT_MAX,
{
    let mut prev: Vec<u64> = Vec::new();
    let mut k: usize = 0;
    while k < b.len() + 1
        invariant
            k <= b@.len() + 1,
            b@.len() <= TEXT_MAX,
            prev@.len() == k,
            forall|j: int| 0 <= j < k ==> prev@[j] == common(a@, b@, 0, j),
        decreases b@.len() + 1 - k,
    {
        prev.push(0);
        k += 1;
    }
    let mut i: usize = 0;
    while i < a.len()
        invariant
            i <= a@.len(),
            a@.len() <= TEXT_MAX,
            b@.len() <= TEXT_MAX,
            prev@.len() == b@.len() + 1,
            forall|j: int| 0 <= j < prev@.len() ==> #[trigger] prev@[j] == common(a@, b@, i as int, j),
        decreases a@.len() - i,
    {
        let mut cur: Vec<u64> = Vec::new();
        cur.push(0);
        let mut j: usize = 0;
        while j < b.len()
            invariant
                i < a@.len(),
                a@.len() <= TEXT_MAX,
                b@.len() <= TEXT_MAX,
                j <= b@.len(),
                cur@.len() == j + 1,
                prev@.len() == b@.len() + 1,
                forall|q: int|
                    0 <= q < prev@.len() ==> #[trigger] prev@[q] == common(a@, b@, i as int, q),
                forall|q: int| 0 <= q <= j ==> #[trigger] cur@[q] == common(a@, b@, i + 1, q),
            decreases b@.len() - j,
        {
            proof {
                lemma_common(a@, b@, i as int, j as int);
                assert(prev@[j as int] == common(a@, b@, i as int, j as int));
                assert(cur@[j as int] == common(a@, b@, i + 1, j as int));
                assert(prev@[j + 1] == common(a@, b@, i as int, j + 1));
            }
            let v: u64 = if a[i] == b[j] {
                prev[j] + 1
            } else if cur[j] >= prev[j + 1] {
                cur[j]
            } else {
                prev[j + 1]
            };
            cur.push(v);
            j += 1;
        }
        prev = cur;
        i += 1;
    }
    proof {
        lemma_common(a@, b@, a@.len() as int, b@.len() as int);
    }
    prev[b.len()]
}

fn like(a: &str, b: &str) -> (r: (u64, u64))
    requires
        a@.len() <= TEXT_MAX,
        b@.len() <= TEXT_MAX,
    ensures
        (r.0 as int, r.1 as int) == likeness(a@, b@),
        r.0 <= 2 * TEXT_MAX,
        r.1 <= 2 * TEXT_MAX,
{
    let av = chars_of(a);
    let bv = chars_of(b);
    if av.len() == 0 && bv.len() == 0 {
        return (1, 1);
    }
    (2 * common_len(&av, &bv), (av.len() + bv.len()) as u64)
}

pub open spec fn short_texts(v: Seq<Seq<char>>) -> bool {
    forall|i: int| 0 <= i < v.len() ==> (#[trigger] v[i]).len() <= TEXT_MAX
}

/// The candidates most like a word: at most `n`, of those at least `cn / cd` like it, best first.
pub fn close_matches(word: &str, cands: &Vec<String>, n: usize, cn: u64, cd: u64) -> (r: Vec<String>)
    requires
        word@.len() <= TEXT_MAX,
        short_texts(text::views(cands@)),
        cn <= 1000,
        cd <= 1000,
    ensures
        text::views(r@) == closest(word@, text::views(cands@), n as int, cn as int, cd as int),
{
    let ghost cs = text::views(cands@);
    let mut good: Vec<String> = Vec::new();
    let mut likes: Vec<(u64, u64)> = Vec::new();
    let mut i: usize = 0;
    assert(text::views(good@) =~= Seq::empty());
    assert(cs.take(0) =~= Seq::empty());
    while i < cands.len()
        invariant
            i <= cands@.len(),
            word@.len() <= TEXT_MAX,
            cs == text::views(cands@),
            short_texts(cs),
            cn <= 1000,
            cd <= 1000,
            text::views(good@) == alike(word@, cs.take(i as int), cn as int, cd as int),
            likes@.len() == good@.len(),
            forall|j: int|
                0 <= j < likes@.len() ==> (#[trigger] likes@[j]).0 as int == likeness(
                    word@,
                    text::views(good@)[j],
                ).0 && likes@[j].1 as int == likeness(word@, text::views(good@)[j]).1
                    && likes@[j].0 <= 2 * TEXT_MAX && likes@[j].1 <= 2 * TEXT_MAX,
        decreases cands@.len() - i,
    {
        proof {
            assert(cs.take(i + 1).drop_last() =~= cs.take(i as int));
            assert(cs[i as int].len() <= TEXT_MAX);
        }
        let l: (u64, u64) = like(word, cands[i].as_str());
        proof {
            assert(l.0 * cd <= 0x80_0000 * 1000) by (nonlinear_arith)
                requires
                    0 <= l.0 <= 0x80_0000,
                    0 <= cd <= 1000,
            ;
            assert(cn * l.1 <= 0x80_0000 * 1000) by (nonlinear_arith)
                requires
                    0 <= l.1 <= 0x80_0000,
                    0 <= cn <= 1000,
            ;
        }
        if l.0 * cd >= cn * l.1 {
            let ghost g0 = good@;
            good.push(cands[i].clone());
            likes.push(l);
            assert(text::views(good@) =~= text::views(g0).push(cs[i as int]));
        }
        i += 1;
    }
    assert(cs.take(i as int) =~= cs);
    let ghost gs = text::views(good@);
    let ghost less = |a: int, b: int| liker(word@, gs[a], gs[b]);
    let mut o: Vec<usize> = Vec::new();
    let mut k: usize = 0;
    assert(order::as_ints(o@) =~= Seq::empty());
    while k < good.len()
        invariant
            k <= good@.len(),
            gs == text::views(good@),
            likes@.len() == good@.len(),
            forall|j: int|
                0 <= j < likes@.len() ==> (#[trigger] likes@[j]).0 as int == likeness(
                    word@,
                    gs[j],
                ).0 && likes@[j].1 as int == likeness(word@, gs[j]).1 && likes@[j].0 <= 2 * TEXT_MAX
                    && likes@[j].1 <= 2 * TEXT_MAX,
            less == (|a: int, b: int| liker(word@, gs[a], gs[b])),
            o@.len() == k,
            order::as_ints(o@) == order::ranked(less, k as int),
            forall|i: int| 0 <= i < k ==> #[trigger] o@[i] < k,
        decreases good@.len() - k,
    {
        let mut pos: usize = o.len();
        let mut going = true;
        while going && pos > 0
            invariant
                pos <= o@.len(),
                k < good@.len(),
                likes@.len() == good@.len(),
                gs == text::views(good@),
                forall|j: int|
                    0 <= j < likes@.len() ==> (#[trigger] likes@[j]).0 as int == likeness(
                        word@,
                        gs[j],
                    ).0 && likes@[j].1 as int == likeness(word@, gs[j]).1 && likes@[j].0 <= 2
                        * TEXT_MAX && likes@[j].1 <= 2 * TEXT_MAX,
                less == (|a: int, b: int| liker(word@, gs[a], gs[b])),
                o@.len() == k,
                forall|i: int| 0 <= i < k ==> #[trigger] o@[i] < k,
                going ==> order::slot(less, order::as_ints(o@), k as int, o@.len() as int)
                    == order::slot(less, order::as_ints(o@), k as int, pos as int),
                !going ==> order::slot(less, order::as_ints(o@), k as int, o@.len() as int) == pos,
            decreases (if going { 1int } else { 0 }), pos,
        {
            let a: (u64, u64) = likes[k];
            let b: (u64, u64) = likes[o[pos - 1]];
            proof {
                assert(b.0 * a.1 <= 0x80_0000 * 0x80_0000) by (nonlinear_arith)
                    requires
                        0 <= b.0 <= 0x80_0000,
                        0 <= a.1 <= 0x80_0000,
                ;
                assert(a.0 * b.1 <= 0x80_0000 * 0x80_0000) by (nonlinear_arith)
                    requires
                        0 <= a.0 <= 0x80_0000,
                        0 <= b.1 <= 0x80_0000,
                ;
            }
            if b.0 * a.1 < a.0 * b.1 {
                pos -= 1;
            } else {
                going = false;
            }
        }
        let ghost o0 = o@;
        o.insert(pos, k);
        proof {
            assert(order::as_ints(o@) =~= order::as_ints(o0).insert(pos as int, k as int));
            assert forall|i: int| 0 <= i < k + 1 implies #[trigger] o@[i] < k + 1 by {
                if i < pos {
                    assert(o@[i] == o0[i]);
                } else if i > pos {
                    assert(o@[i] == o0[i - 1]);
                }
            }
        }
        k += 1;
    }
    let most: usize = if n <= o.len() { n } else { o.len() };
    let mut r: Vec<String> = Vec::new();
    let mut j: usize = 0;
    let ghost want = closest(word@, cs, n as int, cn as int, cd as int);
    while j < most
        invariant
            j <= most,
            most == want.len(),
            most <= o@.len(),
            o@.len() == good@.len(),
            gs == text::views(good@),
            gs == alike(word@, cs, cn as int, cd as int),
            want == closest(word@, cs, n as int, cn as int, cd as int),
            order::as_ints(o@) == order::ranked(
                |a: int, b: int| liker(word@, gs[a], gs[b]),
                gs.len() as int,
            ),
            forall|i: int| 0 <= i < o@.len() ==> #[trigger] o@[i] < good@.len(),
            text::views(r@) == want.take(j as int),
        decreases most - j,
    {
        let ghost r0 = r@;
        r.push(good[o[j]].clone());
        proof {
            assert(order::as_ints(o@)[j as int] == o@[j as int]);
            assert(want.take(j + 1) =~= want.take(j as int).push(want[j as int]));
            assert(text::views(r@) =~= text::views(r0).push(want[j as int]));
        }
        j += 1;
    }
    assert(want.take(j as int) =~= want);
    r
}

/// A part as a design lists it.
#[derive(Clone, Debug)]
pub struct PartSpec {
    pub id: Option<String>,
    pub lib: Option<String>,
    pub unit: i32,
    pub pins_default: Option<String>,
    /// Pin number or name, and its net; `None` leaves the pin unconnected.
    pub pins: Vec<(String, Option<String>)>,
    pub value: Option<String>,
    pub footprint: Option<String>,
    pub fields: Vec<(String, String)>,
}

/// The pins that are drawn.
pub open spec fn visible(pins: Seq<Pin>) -> Seq<Pin>
    decreases pins.len(),
{
    if pins.len() == 0 {
        Seq::empty()
    } else if pins.last().hidden {
        visible(pins.drop_last())
    } else {
        visible(pins.drop_last()).push(pins.last())
    }
}

/// The net a pin gets where the design says nothing of it: the default, or for `label` the pin's
/// own name up to its first slash, its number where that is empty.
pub open spec fn default_net(p: Pin, default: Seq<char>) -> Seq<char> {
    if default != "label"@ {
        default
    } else {
        let head = text::pieces(p.name@, '/')[0];
        if head.len() == 0 { p.number@ } else { head }
    }
}

pub open spec fn default_map(pins: Seq<Pin>, default: Seq<char>, n: int) -> Seq<
    (Seq<char>, Seq<char>),
>
    decreases n,
{
    if n <= 0 {
        Seq::empty()
    } else {
        crate::order_map::put(
            default_map(pins, default, n - 1),
            pins[n - 1].number@,
            default_net(pins[n - 1], default),
        )
    }
}

pub open spec fn has_number(pins: Seq<Pin>, k: Seq<char>) -> bool {
    exists|i: int| 0 <= i < pins.len() && (#[trigger] pins[i]).number@ == k
}

pub open spec fn has_name(pins: Seq<Pin>, k: Seq<char>) -> bool {
    exists|i: int| 0 <= i < pins.len() && (#[trigger] pins[i]).name@ == k
}

/// A key names the pins with that number or, where there is none, the pins with that name.
pub open spec fn names_pin(pins: Seq<Pin>, k: Seq<char>, i: int) -> bool {
    if has_number(pins, k) {
        pins[i].number@ == k
    } else {
        pins[i].name@ == k
    }
}

/// The map after the pins named by `k`, of the first `n`, got the net `v`.
pub open spec fn assign(
    pins: Seq<Pin>,
    k: Seq<char>,
    v: Seq<char>,
    n: int,
    m: Seq<(Seq<char>, Seq<char>)>,
) -> Seq<(Seq<char>, Seq<char>)>
    decreases n,
{
    if n <= 0 {
        m
    } else {
        let r = assign(pins, k, v, n - 1, m);
        if names_pin(pins, k, n - 1) {
            crate::order_map::put(r, pins[n - 1].number@, v)
        } else {
            r
        }
    }
}

pub open spec fn net_or_nc(v: Option<String>) -> Seq<char> {
    match v {
        Some(s) => s@,
        None => "nc"@,
    }
}

/// The first listed key that names no pin, or the length.
pub open spec fn first_stray(pins: Seq<Pin>, keys: Seq<(String, Option<String>)>, i: int) -> int
    decreases keys.len() - i,
{
    if i < 0 || i >= keys.len() {
        keys.len() as int
    } else if !has_number(pins, keys[i].0@) && !has_name(pins, keys[i].0@) {
        i
    } else {
        first_stray(pins, keys, i + 1)
    }
}

/// The map after the first `n` listed keys.
pub open spec fn assign_all(
    pins: Seq<Pin>,
    keys: Seq<(String, Option<String>)>,
    n: int,
    m: Seq<(Seq<char>, Seq<char>)>,
) -> Seq<(Seq<char>, Seq<char>)>
    decreases n,
{
    if n <= 0 {
        m
    } else {
        assign(
            pins,
            keys[n - 1].0@,
            net_or_nc(keys[n - 1].1),
            pins.len() as int,
            assign_all(pins, keys, n - 1, m),
        )
    }
}

pub open spec fn pin_names(pins: Seq<Pin>) -> Seq<Seq<char>> {
    Seq::new(pins.len(), |i: int| pins[i].name@) + Seq::new(pins.len(), |i: int| pins[i].number@)
}

pub open spec fn pin_listing(pins: Seq<Pin>) -> Seq<char> {
    text::joined(Seq::new(pins.len(), |i: int| pins[i].number@ + "="@ + pins[i].name@), ", "@)
}

pub open spec fn hint_text(k: Seq<char>, pins: Seq<Pin>) -> Seq<char> {
    let near = closest(k, pin_names(pins), 3, 1, 2);
    if near.len() == 0 {
        Seq::empty()
    } else {
        " (did you mean "@ + text::joined(text::quoted(near, "'"@, "'"@), ", "@) + "?)"@
    }
}

pub open spec fn no_pin_message(id: Seq<char>, lib: Seq<char>, k: Seq<char>, pins: Seq<Pin>) -> Seq<
    char,
> {
    id + " ("@ + lib + "): no pin '"@ + k + "'"@ + hint_text(k, pins) + "; pins: "@
        + text::clipped(pin_listing(pins), 500)
}

pub open spec fn power_part_message(id: Seq<char>, lib: Seq<char>) -> Seq<char> {
    id + ": "@ + lib
        + " is a power symbol, not a part. Remove it from parts; connect pins to the net name (e.g. \"GND\", \"+9V\") and list nets needing a PWR_FLAG in \"flags\""@
}

pub open spec fn turns_freely(lib: Seq<char>, prefix: Seq<char>, two_pin: bool, connector: bool) -> bool {
    let name = lib_name(lib);
    ||| two_pin && !connector
    ||| text::starts(lib_family(lib), "Transistor"@)
    ||| text::starts(name, "Q_"@)
    ||| text::starts(name, "D_"@)
    ||| text::starts(name, "LED"@)
    ||| prefix == "Q"@
    ||| prefix == "D"@
    ||| prefix == "SW"@
    ||| prefix == "L"@
    ||| prefix == "FB"@
    ||| prefix == "TP"@
}

pub open spec fn text_or_empty(v: Option<String>) -> Seq<char> {
    match v {
        Some(s) => s@,
        None => Seq::empty(),
    }
}

/// Why a listed part is refused, the first reason that applies.
pub open spec fn part_error(pj: PartSpec, s: Session, index: SymbolIndex) -> Option<Seq<char>> {
    match (pj.id, pj.lib) {
        (None, _) => Some("part is missing field 'id'"@),
        (Some(_), None) => Some("part is missing field 'lib'"@),
        (Some(id), Some(lib)) => match geo::info_spec(s, index, lib@) {
            None => Some(geo::unknown_symbol(lib@)),
            Some(sym) => {
                let pins = visible(sym.unit_spec(pj.unit as int).pins@);
                let i = first_stray(pins, pj.pins@, 0);
                if sym.power || text::starts(lib@, "power:"@) {
                    Some(power_part_message(id@, lib@))
                } else if i < pj.pins@.len() {
                    Some(no_pin_message(id@, lib@, pj.pins@[i].0@, pins))
                } else {
                    None
                }
            },
        },
    }
}

/// The part that an accepted listing describes.
pub open spec fn describes(pj: PartSpec, sym: SymbolInfo, p: PartInst) -> bool {
    let pins = visible(sym.unit_spec(pj.unit as int).pins@);
    let default = match pj.pins_default {
        Some(d) => d@,
        None => "nc"@,
    };
    &&& p.id@ == pj.id->0@
    &&& p.lib@ == pj.lib->0@
    &&& p.key@ == p.id@
    &&& *p.info == sym
    &&& p.unit == pj.unit
    &&& p.value@ == text_or_empty(pj.value)
    &&& p.footprint@ == text_or_empty(pj.footprint)
    &&& geo::fields_v(p.fields@) == geo::fields_v(pj.fields@)
    &&& p.pins@ == pins
    &&& p.pinmap.wf()
    &&& crate::order_map::text_pairs(p.pinmap) == assign_all(
        pins,
        pj.pins@,
        pj.pins@.len() as int,
        default_map(pins, default, pins.len() as int),
    )
    &&& p.at == (Pt { x: 0, y: 0 })
    &&& p.rot == 0
    &&& p.mirror@.len() == 0
    &&& p.two_pin == (pins.len() == 2)
    &&& !p.power_only
    &&& p.is_connector == (sym.ref_prefix@ == "J"@ || text::starts(
        lib_family(p.lib@),
        "Connector"@,
    ))
    &&& p.rotatable == turns_freely(p.lib@, sym.ref_prefix@, p.two_pin, p.is_connector)
    &&& p.attach.wf()
    &&& p.attach.names().len() == 0
}

pub(crate) fn is_pin_number(pins: &Vec<Pin>, k: &String) -> (r: bool)
    ensures
        r == has_number(pins@, k@),
{
    let mut i: usize = 0;
    while i < pins.len()
        invariant
            i <= pins@.len(),
            forall|j: int| 0 <= j < i ==> (#[trigger] pins@[j]).number@ != k@,
        decreases pins@.len() - i,
    {
        if pins[i].number == *k {
            assert(pins@[i as int].number@ == k@);
            return true;
        }
        i += 1;
    }
    false
}

pub(crate) fn is_pin_name(pins: &Vec<Pin>, k: &String) -> (r: bool)
    ensures
        r == has_name(pins@, k@),
{
    let mut i: usize = 0;
    while i < pins.len()
        invariant
            i <= pins@.len(),
            forall|j: int| 0 <= j < i ==> (#[trigger] pins@[j]).name@ != k@,
        decreases pins@.len() - i,
    {
        if pins[i].name == *k {
            assert(pins@[i as int].name@ == k@);
            return true;
        }
        i += 1;
    }
    false
}

pub(crate) fn visible_pins(pins: &Vec<Pin>) -> (r: Vec<Pin>)
    ensures
        r@ == visible(pins@),
        (forall|i: int| 0 <= i < pins@.len() ==> symlib::pin_ok(#[trigger] pins@[i])) ==> (forall|
            i: int,
        |
            0 <= i < r@.len() ==> symlib::pin_ok(#[trigger] r@[i])),
{
    let mut r: Vec<Pin> = Vec::new();
    let mut i: usize = 0;
    assert(pins@.take(0) =~= Seq::empty());
    while i < pins.len()
        invariant
            i <= pins@.len(),
            r@ == visible(pins@.take(i as int)),
            (forall|i: int| 0 <= i < pins@.len() ==> symlib::pin_ok(#[trigger] pins@[i])) ==> (
            forall|i: int| 0 <= i < r@.len() ==> symlib::pin_ok(#[trigger] r@[i])),
        decreases pins@.len() - i,
    {
        assert(pins@.take(i + 1).drop_last() =~= pins@.take(i as int));
        if !pins[i].hidden {
            r.push(pins[i].dup());
        }
        i += 1;
    }
    assert(pins@.take(i as int) =~= pins@);
    r
}

fn no_pin(id: &str, lib: &str, k: &str, pins: &Vec<Pin>) -> (r: String)
    requires
        k@.len() <= TEXT_MAX,
        short_texts(pin_names(pins@)),
    ensures
        r@ == no_pin_message(id@, lib@, k@, pins@),
{
    let mut names: Vec<String> = Vec::new();
    let mut numbers: Vec<String> = Vec::new();
    let mut rows: Vec<String> = Vec::new();
    let ghost want = Seq::new(pins@.len(), |i: int| pins@[i].number@ + "="@ + pins@[i].name@);
    let mut i: usize = 0;
    while i < pins.len()
        invariant
            i <= pins@.len(),
            names@.len() == i,
            numbers@.len() == i,
            rows@.len() == i,
            forall|j: int| 0 <= j < i ==> (#[trigger] names@[j])@ == pins@[j].name@,
            forall|j: int| 0 <= j < i ==> (#[trigger] numbers@[j])@ == pins@[j].number@,
            forall|j: int|
                0 <= j < i ==> (#[trigger] rows@[j])@ == pins@[j].number@ + "="@ + pins@[j].name@,
        decreases pins@.len() - i,
    {
        names.push(pins[i].name.clone());
        numbers.push(pins[i].number.clone());
        rows.push(text::concat3(pins[i].number.as_str(), "=", pins[i].name.as_str()));
        i += 1;
    }
    names.append(&mut numbers);
    assert(text::views(names@) =~= pin_names(pins@));
    assert(text::views(rows@) =~= want);
    let near = close_matches(k, &names, 3, 1, 2);
    let mut r = id.to_owned();
    r.append(" (");
    r.append(lib);
    r.append("): no pin '");
    r.append(k);
    r.append("'");
    let mut hint = String::new();
    if near.len() > 0 {
        hint.append(" (did you mean ");
        let q = text::quote_all(&near, "'", "'");
        hint.append(text::join(&q, ", ").as_str());
        hint.append("?)");
    }
    assert(text::views(near@).len() == near@.len());
    assert(hint@ =~= hint_text(k@, pins@));
    r.append(hint.as_str());
    r.append("; pins: ");
    let all = text::join(&rows, ", ");
    r.append(text::clip(all.as_str(), 500).as_str());
    assert(r@ =~= no_pin_message(id@, lib@, k@, pins@));
    r
}

fn opt_text(v: &Option<String>) -> (r: String)
    ensures
        r@ == text_or_empty(*v),
{
    match v {
        Some(s) => s.clone(),
        None => String::new(),
    }
}

fn make_pinmap(pins: &Vec<Pin>, pj: &PartSpec) -> (m: OrderMap<String>)
    ensures
        m.wf(),
        crate::order_map::text_pairs(m) == assign_all(
            pins@,
            pj.pins@,
            pj.pins@.len() as int,
            default_map(
                pins@,
                match pj.pins_default {
                    Some(d) => d@,
                    None => "nc"@,
                },
                pins@.len() as int,
            ),
        ),
{
    let default = match &pj.pins_default {
        Some(d) => d.clone(),
        None => "nc".to_owned(),
    };
    let mut m: OrderMap<String> = OrderMap::new();
    let mut i: usize = 0;
    assert(crate::order_map::text_pairs(m) =~= Seq::empty());
    while i < pins.len()
        invariant
            i <= pins@.len(),
            m.wf(),
            crate::order_map::text_pairs(m) == default_map(pins@, default@, i as int),
        decreases pins@.len() - i,
    {
        let v = if !same(default.as_str(), "label") {
            default.clone()
        } else {
            let ps = split(pins[i].name.as_str(), '/');
            assert(text::views(ps@)[0] == ps@[0]@);
            if ps[0].as_str().is_empty() {
                pins[i].number.clone()
            } else {
                ps[0].clone()
            }
        };
        let ghost m0 = m;
        let ghost v0 = v;
        m.insert(pins[i].number.as_str(), v);
        proof {
            crate::order_map::lemma_text_put(m0, m, pins@[i as int].number@, v0);
        }
        i += 1;
    }
    let ghost base = default_map(pins@, default@, pins@.len() as int);
    let mut k: usize = 0;
    while k < pj.pins.len()
        invariant
            k <= pj.pins@.len(),
            m.wf(),
            crate::order_map::text_pairs(m) == assign_all(pins@, pj.pins@, k as int, base),
        decreases pj.pins@.len() - k,
    {
        let key = &pj.pins[k].0;
        let val = match &pj.pins[k].1 {
            Some(s) => s.clone(),
            None => "nc".to_owned(),
        };
        let by_number = is_pin_number(pins, key);
        let ghost before = crate::order_map::text_pairs(m);
        let mut j: usize = 0;
        while j < pins.len()
            invariant
                j <= pins@.len(),
                m.wf(),
                by_number == has_number(pins@, key@),
                crate::order_map::text_pairs(m) == assign(pins@, key@, val@, j as int, before),
            decreases pins@.len() - j,
        {
            let hit = if by_number {
                pins[j].number == *key
            } else {
                pins[j].name == *key
            };
            if hit {
                let ghost m0 = m;
                let v = val.clone();
                let ghost v0 = v;
                m.insert(pins[j].number.as_str(), v);
                proof {
                    crate::order_map::lemma_text_put(m0, m, pins@[j as int].number@, v0);
                }
            }
            j += 1;
        }
        k += 1;
    }
    m
}

impl PartInst {
    /// Makes a part of its listing. A part without id or symbol, a power symbol, and a key that
    /// names no pin are refused.
    pub fn new(pj: &PartSpec, s: &Session, index: &SymbolIndex) -> (r: Result<PartInst, LayoutError>)
        requires
            geo::library_ok(*s, *index),
            forall|i: int| 0 <= i < pj.pins@.len() ==> (#[trigger] pj.pins@[i]).0@.len() <= TEXT_MAX,
            forall|k: Seq<char>|
                (#[trigger] geo::info_spec(*s, *index, k)) is Some ==> short_texts(
                    pin_names(
                        visible(geo::info_spec(*s, *index, k)->0.unit_spec(pj.unit as int).pins@),
                    ),
                ),
        ensures
            match r {
                Ok(p) => part_error(*pj, *s, *index) is None && describes(
                    *pj,
                    *geo::info_spec(*s, *index, pj.lib->0@)->0,
                    p,
                ) && p.info.wf(),
                Err(e) => part_error(*pj, *s, *index) == Some(e.0@),
            },
    {
        let id = match &pj.id {
            Some(s) => s,
            None => return Err(LayoutError("part is missing field 'id'".to_owned())),
        };
        let lib = match &pj.lib {
            Some(s) => s,
            None => return Err(LayoutError("part is missing field 'lib'".to_owned())),
        };
        let sym = match info(s, index, lib.as_str()) {
            Ok(i) => i,
            Err(e) => return Err(e),
        };
        assert(geo::info_spec(*s, *index, lib@) == Some(sym));
        if sym.power || starts_with(lib.as_str(), "power:") {
            let mut m = text::concat3(id.as_str(), ": ", lib.as_str());
            m.append(
                " is a power symbol, not a part. Remove it from parts; connect pins to the net name (e.g. \"GND\", \"+9V\") and list nets needing a PWR_FLAG in \"flags\"",
            );
            return Err(LayoutError(m));
        }
        let pins = visible_pins(sym.pins_for_unit(pj.unit));
        let mut k: usize = 0;
        while k < pj.pins.len()
            invariant
                k <= pj.pins@.len(),
                pj.id == Some(*id),
                pj.lib == Some(*lib),
                geo::info_spec(*s, *index, lib@) == Some(sym),
                !(sym.power || text::starts(lib@, "power:"@)),
                pins@ == visible(sym.unit_spec(pj.unit as int).pins@),
                short_texts(pin_names(pins@)),
                forall|i: int|
                    0 <= i < pj.pins@.len() ==> (#[trigger] pj.pins@[i]).0@.len() <= TEXT_MAX,
                first_stray(pins@, pj.pins@, 0) == first_stray(pins@, pj.pins@, k as int),
            decreases pj.pins@.len() - k,
        {
            if !is_pin_number(&pins, &pj.pins[k].0) && !is_pin_name(&pins, &pj.pins[k].0) {
                return Err(
                    LayoutError(
                        no_pin(id.as_str(), lib.as_str(), pj.pins[k].0.as_str(), &pins),
                    ),
                );
            }
            k += 1;
        }
        let pinmap = make_pinmap(&pins, pj);
        let pieces = split(lib.as_str(), ':');
        let last: usize = pieces.len() - 1;
        assert(text::views(pieces@)[0] == pieces@[0]@);
        assert(text::views(pieces@).last() == pieces@[last as int]@);
        let fam = pieces[0].as_str();
        let name = pieces[last].as_str();
        let prefix = sym.ref_prefix.as_str();
        let two_pin = pins.len() == 2;
        let is_connector = same(prefix, "J") || starts_with(fam, "Connector");
        let rotatable = (two_pin && !is_connector) || starts_with(fam, "Transistor") || starts_with(
            name,
            "Q_",
        ) || starts_with(name, "D_") || starts_with(name, "LED") || same(prefix, "Q") || same(
            prefix,
            "D",
        ) || same(prefix, "SW") || same(prefix, "L") || same(prefix, "FB") || same(prefix, "TP");
        let p = PartInst {
            key: id.clone(),
            id: id.clone(),
            lib: lib.clone(),
            info: sym,
            unit: pj.unit,
            value: opt_text(&pj.value),
            footprint: opt_text(&pj.footprint),
            fields: geo::dup_fields(&pj.fields),
            pins,
            pinmap,
            at: Pt { x: 0, y: 0 },
            rot: 0,
            mirror: String::new(),
            two_pin,
            power_only: false,
            is_connector,
            rotatable,
            attach: OrderMap::new(),
        };
        Ok(p)
    }
}

} // verus!
