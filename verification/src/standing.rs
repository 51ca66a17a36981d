//! Where the pins and the boxes of symbols stand on a sheet.
use crate::compile;
use crate::compile::{Key, PinRefV, PinsAtV, Shelf, StateV, Used};
use crate::geom;
use crate::geom::{BBox, Mirror, Pt};
use crate::engine::PartInst;
use crate::model::{DesignV, PartV, PowerV};
use crate::orient;
use crate::symlib;
use crate::symlib::Pin;
use crate::touching;
use vstd::prelude::*;

verus! {

// ---------------------------------------------------------------- turns
/// A length in whole steps of ten, as libraries hold them.
pub open spec fn tens(v: int) -> bool {
    v % 10 == 0
}

proof fn lemma_tens(v: int)
    requires
        tens(v),
    ensures
        geom::nearest_multiple(v, 10) == v,
        geom::nearest_multiple(-v, 10) == -v,
{
}

/// A library has its y axis up, a sheet down; a quarter turn goes against the clock, and mirroring
/// comes after it: along x it turns up to down, along y left to right.
pub proof fn a_quarter_turn_goes_against_the_clock(x: int, y: int, rot: int)
    requires
        tens(x),
        tens(y),
        rot % 90 == 0,
    ensures
        rot % 360 == 0 ==> symlib::turned(x, y, rot, Mirror::Plain) == (x, -y),
        ({
            let (u, v) = symlib::turned(x, y, rot, Mirror::Plain);
            &&& symlib::turned(x, y, rot + 90, Mirror::Plain) == (v, -u)
            &&& symlib::turned(x, y, rot, Mirror::X) == (u, -v)
            &&& symlib::turned(x, y, rot, Mirror::Y) == (-u, v)
        }),
{
    reveal(symlib::turned);
    lemma_tens(x);
    lemma_tens(y);
    assert((rot + 90) % 360 == (rot % 360 + 90) % 360);
    assert(rot % 360 == 0 || rot % 360 == 90 || rot % 360 == 180 || rot % 360 == 270);
    assert(-(-x) == x && -(-y) == y);
}

/// Whether a point lies in a box.
pub open spec fn holds(b: BBox, x: int, y: int) -> bool {
    b.x0 <= x <= b.x1 && b.y0 <= y <= b.y1
}

/// A box that was turned and placed with its symbol holds every point that it held before.
pub proof fn a_turned_box_holds_what_it_held(
    b: BBox,
    at: Pt,
    rot: int,
    m: Mirror,
    x: int,
    y: int,
)
    requires
        symlib::near_box(b),
        compile::around_sheet(at.x as int, at.y as int),
        tens(b.x0 as int),
        tens(b.y0 as int),
        tens(b.x1 as int),
        tens(b.y1 as int),
        tens(x),
        tens(y),
        holds(b, x, y),
    ensures
        holds(
            symlib::turned_box(b, at, rot, m),
            at.x + symlib::turned(x, y, rot, m).0,
            at.y + symlib::turned(x, y, rot, m).1,
        ),
{
    lemma_corners(b, rot, m, x, y);
    lemma_box(b, at, rot, m, x, y);
}

/// What a turn makes of a point in a box lies between what it makes of two of the corners.
#[verifier::spinoff_prover]
#[verifier::rlimit(40)]
proof fn lemma_corners(b: BBox, rot: int, m: Mirror, x: int, y: int)
    requires
        tens(b.x0 as int),
        tens(b.y0 as int),
        tens(b.x1 as int),
        tens(b.y1 as int),
        tens(x),
        tens(y),
        holds(b, x, y),
    ensures
        ({
            let p = symlib::turned(b.x0 as int, b.y0 as int, rot, m);
            let q = symlib::turned(b.x1 as int, b.y1 as int, rot, m);
            let t = symlib::turned(x, y, rot, m);
            &&& geom::lo(p.0, q.0) <= t.0 <= geom::hi(p.0, q.0)
            &&& geom::lo(p.1, q.1) <= t.1 <= geom::hi(p.1, q.1)
        }),
{
    reveal(symlib::turned);
    lemma_tens(x);
    lemma_tens(y);
    lemma_tens(b.x0 as int);
    lemma_tens(b.y0 as int);
    lemma_tens(b.x1 as int);
    lemma_tens(b.y1 as int);
    assert(-(-x) == x && -(-y) == y);
}

proof fn lemma_box(b: BBox, at: Pt, rot: int, m: Mirror, x: int, y: int)
    requires
        symlib::near_box(b),
        compile::around_sheet(at.x as int, at.y as int),
        ({
            let p = symlib::turned(b.x0 as int, b.y0 as int, rot, m);
            let q = symlib::turned(b.x1 as int, b.y1 as int, rot, m);
            let t = symlib::turned(x, y, rot, m);
            &&& geom::lo(p.0, q.0) <= t.0 <= geom::hi(p.0, q.0)
            &&& geom::lo(p.1, q.1) <= t.1 <= geom::hi(p.1, q.1)
        }),
    ensures
        holds(
            symlib::turned_box(b, at, rot, m),
            at.x + symlib::turned(x, y, rot, m).0,
            at.y + symlib::turned(x, y, rot, m).1,
        ),
{
    reveal(symlib::turned_box);
    symlib::lemma_turned(b.x0 as int, b.y0 as int, rot, m);
    symlib::lemma_turned(b.x1 as int, b.y1 as int, rot, m);
    symlib::lemma_turned(b.x0 as int, b.y1 as int, rot, m);
    symlib::lemma_turned(b.x1 as int, b.y0 as int, rot, m);
}

/// The first two pins of a part lie on whole steps of ten, near its origin.
pub open spec fn pins_fit(p: PartInst) -> bool {
    &&& p.pins@.len() >= 2
    &&& forall|k: int|
        0 <= k < 2 ==> tens((#[trigger] p.pins@[k]).x as int) && tens(p.pins@[k].y as int)
            && symlib::near(p.pins@[k].x as int) && symlib::near(p.pins@[k].y as int)
}

/// Half a turn more keeps two pins on a level line, and off one.
proof fn lemma_half_turn(p: PartInst, rot: int)
    requires
        pins_fit(p),
        rot % 90 == 0,
    ensures
        orient::lies_flat(p, orient::half_turn(rot), Mirror::Plain) == orient::lies_flat(
            p,
            rot,
            Mirror::Plain,
        ),
{
    let (a, b) = (p.pins@[0], p.pins@[1]);
    let h = orient::half_turn(rot);
    lemma_opposite(a.x as int, a.y as int, rot);
    lemma_opposite(b.x as int, b.y as int, rot);
    symlib::lemma_turned(a.x as int, a.y as int, rot, Mirror::Plain);
    symlib::lemma_turned(b.x as int, b.y as int, rot, Mirror::Plain);
    symlib::lemma_turned(a.x as int, a.y as int, h, Mirror::Plain);
    symlib::lemma_turned(b.x as int, b.y as int, h, Mirror::Plain);
}

proof fn lemma_opposite(x: int, y: int, rot: int)
    requires
        tens(x),
        tens(y),
        rot % 90 == 0,
    ensures
        ({
            let (u, v) = symlib::turned(x, y, rot, Mirror::Plain);
            symlib::turned(x, y, orient::half_turn(rot), Mirror::Plain) == (-u, -v)
        }),
{
    a_quarter_turn_goes_against_the_clock(x, y, rot);
    a_quarter_turn_goes_against_the_clock(x, y, rot + 90);
    reveal(symlib::turned);
    assert(((rot + 180) % 360) % 360 == (rot + 90 + 90) % 360);
}

proof fn lemma_rot_if(p: PartInst, flat: bool, rot: i32, r: i32)
    ensures
        orient::rot_if(p, flat, rot).contains(r) ==> r == rot && orient::lies_flat(
            p,
            r as int,
            Mirror::Plain,
        ) == flat,
{
}

/// Each of the rotations that lay a part flat, or stand it up, does so.
proof fn lemma_rots(p: PartInst, flat: bool, i: int)
    requires
        0 <= i < orient::rots(p, flat).len(),
    ensures
        ({
            let r = orient::rots(p, flat)[i];
            (r == 0 || r == 90 || r == 180 || r == 270) && orient::lies_flat(
                p,
                r as int,
                Mirror::Plain,
            ) == flat
        }),
{
    let a = orient::rot_if(p, flat, 0);
    let b = orient::rot_if(p, flat, 90);
    let c = orient::rot_if(p, flat, 180);
    let d = orient::rot_if(p, flat, 270);
    let r = orient::rots(p, flat)[i];
    lemma_rot_if(p, flat, 0, r);
    lemma_rot_if(p, flat, 90, r);
    lemma_rot_if(p, flat, 180, r);
    lemma_rot_if(p, flat, 270, r);
    if i < a.len() {
        assert(a[i] == r);
    } else if i < a.len() + b.len() {
        assert(b[i - a.len()] == r);
    } else if i < a.len() + b.len() + c.len() {
        assert(c[i - a.len() - b.len()] == r);
    } else {
        assert(d[i - a.len() - b.len() - c.len()] == r);
    }
}

/// A part of two pins that is listed upright stands and one that is listed level lies, however the
/// library draws it, where any rotation does it.
pub proof fn listed_rotations_stand_or_lie(p: PartInst, rot: int)
    requires
        pins_fit(p),
        rot == 0 || rot == 90 || rot == 180 || rot == 270,
        orient::rots(p, rot == 90 || rot == 270).len() > 0,
    ensures
        orient::lies_flat(p, orient::meant_rot(p, rot), Mirror::Plain) == (rot == 90 || rot == 270),
{
    let flat = rot == 90 || rot == 270;
    let rs = orient::rots(p, flat);
    lemma_rots(p, flat, 0);
    if orient::lists(rs, rot) {
        let i = choose|i: int| 0 <= i < rs.len() && #[trigger] rs[i] == rot;
        lemma_rots(p, flat, i);
    } else {
        lemma_half_turn(p, rs[0] as int);
    }
}

// ---------------------------------------------------------------- pins
/// Whether a pin is listed at a point.
pub open spec fn listed(v: PinsAtV, k: Key, r: PinRefV) -> bool {
    exists|i: int| 0 <= i < v.len() && (#[trigger] v[i]).0 == k && v[i].1.contains(r)
}

/// Each point is listed once, with pins.
pub open spec fn spots_once(v: PinsAtV) -> bool {
    &&& forall|i: int, j: int|
        0 <= i < j < v.len() ==> (#[trigger] v[i]).0 != (#[trigger] v[j]).0
    &&& forall|i: int| 0 <= i < v.len() ==> (#[trigger] v[i]).1.len() > 0
}

proof fn lemma_add_ref(v: PinsAtV, k: Key, r: PinRefV)
    requires
        spots_once(v),
    ensures
        spots_once(compile::add_ref(v, k, r)),
        forall|q: Key, o: PinRefV| #[trigger]
            listed(compile::add_ref(v, k, r), q, o) <==> listed(v, q, o) || q == k && o == r,
{
    let w = compile::add_ref(v, k, r);
    touching::lemma_seek_key(v, k, 0);
    let at = compile::seek_key(v, k, 0);
    assert forall|q: Key, o: PinRefV| #[trigger] listed(w, q, o) <==> listed(v, q, o) || q == k && o
        == r by {
        if listed(v, q, o) {
            let i = choose|i: int|
                0 <= i < v.len() && (#[trigger] v[i]).0 == q && v[i].1.contains(o);
            if i == at {
                let j = choose|j: int| 0 <= j < v[i].1.len() && v[i].1[j] == o;
                assert(w[i].1[j] == o);
            }
            assert(w[i].0 == q && w[i].1.contains(o));
        }
        if q == k && o == r {
            if at < v.len() {
                assert(w[at].1[v[at].1.len() as int] == r);
                assert(w[at].0 == q && w[at].1.contains(o));
            } else {
                assert(w[v.len() as int].1[0] == r);
                assert(w[v.len() as int].0 == q && w[v.len() as int].1.contains(o));
            }
        }
        if listed(w, q, o) {
            let i = choose|i: int|
                0 <= i < w.len() && (#[trigger] w[i]).0 == q && w[i].1.contains(o);
            let j = choose|j: int| 0 <= j < w[i].1.len() && w[i].1[j] == o;
            if i < v.len() {
                if i != at {
                    assert(v[i] == w[i]);
                } else if j < v[i].1.len() {
                    assert(v[i].1[j] == o);
                }
                if i != at || j < v[i].1.len() {
                    assert(v[i].0 == q && v[i].1.contains(o));
                }
            }
        }
    }
}

/// Pin `m` of a part is drawn, and this is how it is listed.
pub open spec fn drawn_pin(p: PartV, pins: Seq<Pin>, m: int, k: Key, r: PinRefV) -> bool {
    &&& 0 <= m < pins.len()
    &&& !pins[m].hidden
    &&& k == compile::key_spec(
        Pt {
            x: (p.at.x + symlib::turned(
                pins[m].x as int,
                pins[m].y as int,
                p.rot,
                symlib::mirror_spec(p.mirror),
            ).0) as i64,
            y: (p.at.y + symlib::turned(
                pins[m].x as int,
                pins[m].y as int,
                p.rot,
                symlib::mirror_spec(p.mirror),
            ).1) as i64,
        },
    )
    &&& r.owner == p.id
    &&& r.number == pins[m].number@
    &&& r.etype == pins[m].etype@
}

proof fn lemma_part(v: PinsAtV, p: PartV, pins: Seq<Pin>, n: int)
    requires
        spots_once(v),
        0 <= n <= pins.len(),
    ensures
        spots_once(compile::part_refs(v, p, pins, n)),
        forall|k: Key, r: PinRefV| #[trigger]
            listed(compile::part_refs(v, p, pins, n), k, r) <==> listed(v, k, r) || exists|m: int|
                m < n && #[trigger] drawn_pin(p, pins, m, k, r),
    decreases n,
{
    if n > 0 {
        lemma_part(v, p, pins, n - 1);
        let w = compile::part_refs(v, p, pins, n - 1);
        let pin = pins[n - 1];
        let kk = compile::key_spec(compile::pin_place(p, pin));
        let rr = PinRefV { owner: p.id, number: pin.number@, etype: pin.etype@ };
        if !pin.hidden {
            lemma_add_ref(w, kk, rr);
        }
        assert forall|k: Key, r: PinRefV| #[trigger]
            listed(compile::part_refs(v, p, pins, n), k, r) <==> listed(v, k, r) || exists|m: int|
                m < n && #[trigger] drawn_pin(p, pins, m, k, r) by {
            assert(listed(w, k, r) <==> listed(v, k, r) || exists|m: int|
                m < n - 1 && #[trigger] drawn_pin(p, pins, m, k, r));
            if exists|m: int| m < n - 1 && #[trigger] drawn_pin(p, pins, m, k, r) {
                let m = choose|m: int| m < n - 1 && #[trigger] drawn_pin(p, pins, m, k, r);
                assert(m < n && drawn_pin(p, pins, m, k, r));
            }
            if exists|m: int| m < n && #[trigger] drawn_pin(p, pins, m, k, r) {
                let m = choose|m: int| m < n && #[trigger] drawn_pin(p, pins, m, k, r);
                if m < n - 1 {
                    assert(m < n - 1 && drawn_pin(p, pins, m, k, r));
                } else {
                    assert(k == kk);
                    assert(r =~= rr);
                }
            }
            if !pin.hidden && k == kk && r == rr {
                assert(n - 1 < n && drawn_pin(p, pins, n - 1, k, r));
            }
        }
    }
}

/// How power symbol `i` is listed: by its reference, as one pin.
pub open spec fn power_pin(power: Seq<PowerV>, i: int, k: Key, r: PinRefV) -> bool {
    &&& 0 <= i < power.len()
    &&& k == compile::key_spec(power[i].at)
    &&& r.owner == (if power[i].reference.len() == 0 {
        "#PWR"@
    } else {
        power[i].reference
    })
    &&& r.number == "1"@
    &&& r.etype == "power_in"@
}

proof fn lemma_power(v: PinsAtV, power: Seq<PowerV>, n: int)
    requires
        spots_once(v),
        0 <= n <= power.len(),
    ensures
        spots_once(compile::power_refs(v, power, n)),
        forall|k: Key, r: PinRefV| #[trigger]
            listed(compile::power_refs(v, power, n), k, r) <==> listed(v, k, r) || exists|i: int|
                i < n && #[trigger] power_pin(power, i, k, r),
    decreases n,
{
    if n > 0 {
        lemma_power(v, power, n - 1);
        let w = compile::power_refs(v, power, n - 1);
        let e = power[n - 1];
        let kk = compile::key_spec(e.at);
        let rr = PinRefV {
            owner: if e.reference.len() == 0 {
                "#PWR"@
            } else {
                e.reference
            },
            number: "1"@,
            etype: "power_in"@,
        };
        lemma_add_ref(w, kk, rr);
        assert forall|k: Key, r: PinRefV| #[trigger]
            listed(compile::power_refs(v, power, n), k, r) <==> listed(v, k, r) || exists|i: int|
                i < n && #[trigger] power_pin(power, i, k, r) by {
            assert(listed(w, k, r) <==> listed(v, k, r) || exists|i: int|
                i < n - 1 && #[trigger] power_pin(power, i, k, r));
            if exists|i: int| i < n - 1 && #[trigger] power_pin(power, i, k, r) {
                let i = choose|i: int| i < n - 1 && #[trigger] power_pin(power, i, k, r);
                assert(i < n && power_pin(power, i, k, r));
            }
            if exists|i: int| i < n && #[trigger] power_pin(power, i, k, r) {
                let i = choose|i: int| i < n && #[trigger] power_pin(power, i, k, r);
                if i < n - 1 {
                    assert(i < n - 1 && power_pin(power, i, k, r));
                } else {
                    assert(r =~= rr);
                }
            }
            if k == kk && r == rr {
                assert(n - 1 < n && power_pin(power, n - 1, k, r));
            }
        }
    }
}

/// The symbol of part `i`, as it is looked up behind those of the parts before it.
pub open spec fn symbol_of(st: StateV, des: DesignV, shelf: Shelf, i: int) -> Option<Used> {
    compile::resolved(
        compile::all_refs(st, des, shelf, i).0,
        des,
        shelf,
        des.parts[i].lib,
        des.parts[i].lib_name,
    ).1
}

/// Part `i` has a symbol whose unit draws a pin that is listed so.
pub open spec fn part_pin(
    st: StateV,
    des: DesignV,
    shelf: Shelf,
    i: int,
    m: int,
    k: Key,
    r: PinRefV,
) -> bool {
    &&& 0 <= i < des.parts.len()
    &&& symbol_of(st, des, shelf, i) is Some
    &&& drawn_pin(
        des.parts[i],
        symbol_of(st, des, shelf, i)->0.src.unit_spec(des.parts[i].unit).pins@,
        m,
        k,
        r,
    )
}

#[verifier::spinoff_prover]
#[verifier::rlimit(40)]
proof fn lemma_parts(st: StateV, des: DesignV, shelf: Shelf, n: int)
    requires
        0 <= n <= des.parts.len(),
    ensures
        spots_once(compile::all_refs(st, des, shelf, n).1),
        forall|k: Key, r: PinRefV| #[trigger]
            listed(compile::all_refs(st, des, shelf, n).1, k, r) <==> exists|i: int, m: int|
                i < n && #[trigger] part_pin(st, des, shelf, i, m, k, r),
    decreases n,
{
    if n > 0 {
        lemma_parts(st, des, shelf, n - 1);
        let v = compile::all_refs(st, des, shelf, n - 1).1;
        let w = compile::all_refs(st, des, shelf, n).1;
        let p = des.parts[n - 1];
        let u = symbol_of(st, des, shelf, n - 1);
        if u is Some {
            let pins = u->0.src.unit_spec(p.unit).pins@;
            lemma_part(v, p, pins, pins.len() as int);
            assert(w == compile::part_refs(v, p, pins, pins.len() as int));
        } else {
            assert(w == v);
        }
        assert forall|k: Key, r: PinRefV| #[trigger] listed(w, k, r) <==> exists|i: int, m: int|
            i < n && #[trigger] part_pin(st, des, shelf, i, m, k, r) by {
            assert(listed(v, k, r) <==> exists|i: int, m: int|
                i < n - 1 && #[trigger] part_pin(st, des, shelf, i, m, k, r));
            if listed(v, k, r) {
                let (i, m) = choose|i: int, m: int|
                    i < n - 1 && #[trigger] part_pin(st, des, shelf, i, m, k, r);
                assert(i < n && part_pin(st, des, shelf, i, m, k, r));
            }
            if exists|i: int, m: int| i < n && #[trigger] part_pin(st, des, shelf, i, m, k, r) {
                let (i, m) = choose|i: int, m: int|
                    i < n && #[trigger] part_pin(st, des, shelf, i, m, k, r);
                if i < n - 1 {
                    assert(i < n - 1 && part_pin(st, des, shelf, i, m, k, r));
                    assert(listed(v, k, r));
                } else {
                    let pins = u->0.src.unit_spec(p.unit).pins@;
                    assert(drawn_pin(p, pins, m, k, r));
                }
            }
            if listed(w, k, r) && !listed(v, k, r) {
                let pins = u->0.src.unit_spec(p.unit).pins@;
                let m = choose|m: int| m < pins.len() && #[trigger] drawn_pin(p, pins, m, k, r);
                assert(n - 1 < n && part_pin(st, des, shelf, n - 1, m, k, r));
            }
        }
    } else {
        assert(compile::all_refs(st, des, shelf, 0).1.len() == 0);
    }
}

/// The pins of a sheet are listed where they stand: each drawn pin of each part with a symbol, at
/// the place of the part and its own offset turned with it, and the pin of each power symbol; no
/// others, and each point once.
pub proof fn pins_are_listed_where_they_stand(st: StateV, des: DesignV, shelf: Shelf)
    ensures
        ({
            let v = compile::pin_positions(st, des, shelf).1;
            &&& spots_once(v)
            &&& forall|k: Key, r: PinRefV| #[trigger]
                listed(v, k, r) <==> (exists|i: int, m: int| #[trigger]
                    part_pin(st, des, shelf, i, m, k, r)) || (exists|i: int| #[trigger]
                    power_pin(des.power, i, k, r))
        }),
{
    let v = compile::all_refs(st, des, shelf, des.parts.len() as int).1;
    lemma_parts(st, des, shelf, des.parts.len() as int);
    lemma_power(v, des.power, des.power.len() as int);
    let w = compile::pin_positions(st, des, shelf).1;
    assert(w == compile::power_refs(v, des.power, des.power.len() as int));
    assert forall|k: Key, r: PinRefV| #[trigger] listed(w, k, r) <==> (exists|i: int, m: int|
        #[trigger] part_pin(st, des, shelf, i, m, k, r)) || (exists|i: int| #[trigger]
        power_pin(des.power, i, k, r)) by {
        if exists|i: int, m: int| #[trigger] part_pin(st, des, shelf, i, m, k, r) {
            let (i, m) = choose|i: int, m: int| #[trigger] part_pin(st, des, shelf, i, m, k, r);
            assert(i < des.parts.len() && part_pin(st, des, shelf, i, m, k, r));
            assert(listed(v, k, r));
        }
        if exists|i: int| #[trigger] power_pin(des.power, i, k, r) {
            let i = choose|i: int| #[trigger] power_pin(des.power, i, k, r);
            assert(i < des.power.len() && power_pin(des.power, i, k, r));
        }
    }
}

} // verus!
