//! What written points stand for: a pin reference stands for its pin, a coordinate for itself, and
//! anything else is refused.
use crate::json;
use crate::json::JsonV;
use crate::model_json::list_at;
use crate::order_map;
use crate::order_map::look;
use crate::pinref;
use crate::pinref::{FoundV, PinSpot, SpotsV, StepV, TableV};
use crate::symlib::Pin;
use crate::text;
use vstd::prelude::*;

verus! {

// ---------------------------------------------------------------- texts
/// Whether a text neither begins nor ends with white space.
pub open spec fn tight(s: Seq<char>) -> bool {
    s.len() > 0 && !text::is_blank(s[0]) && !text::is_blank(s.last())
}

proof fn lemma_tight(s: Seq<char>)
    requires
        tight(s),
    ensures
        pinref::trimmed(s) == s,
{
    assert(pinref::lead(s, 0) == 0);
    assert(pinref::trail(s, s.len() as int) == s.len());
    assert(s.subrange(0, s.len() as int) =~= s);
}

proof fn lemma_first_dot(s: Seq<char>, i: int)
    requires
        0 <= i <= s.len(),
    ensures
        i <= pinref::first_dot(s, i) <= s.len(),
        pinref::first_dot(s, i) < s.len() ==> s[pinref::first_dot(s, i)] == '.',
        forall|j: int| i <= j < pinref::first_dot(s, i) ==> #[trigger] s[j] != '.',
    decreases s.len() - i,
{
    if i < s.len() && s[i] != '.' {
        lemma_first_dot(s, i + 1);
    }
}

/// Whether a dot of a text follows the reference of a known part.
pub open spec fn splits(t: TableV, s: Seq<char>, i: int) -> bool {
    0 <= i < s.len() && s[i] == '.' && look(t, s.take(i)) is Some
}

proof fn lemma_part_dot(t: TableV, s: Seq<char>, i: int)
    requires
        0 <= i <= s.len(),
    ensures
        i <= pinref::part_dot(t, s, i) <= s.len(),
        pinref::part_dot(t, s, i) < s.len() ==> splits(t, s, pinref::part_dot(t, s, i)),
        forall|j: int| i <= j < pinref::part_dot(t, s, i) ==> !#[trigger] splits(t, s, j),
    decreases s.len() - i,
{
    if i < s.len() {
        if !(s[i] == '.' && look(t, s.take(i)) is Some) {
            lemma_part_dot(t, s, i + 1);
        }
    }
}

// ---------------------------------------------------------------- points
/// A part of the table and one of its pins.
pub open spec fn pin_of(t: TableV, r: Seq<char>, n: Seq<char>, p: PinSpot) -> bool {
    look(t, r) is Some && look(look(t, r)->0, n) == Some(p)
}

/// The reference of a part, a dot and a number or a name of one of its pins stand for that pin,
/// unless a shorter reference of a part is before a dot in it.
pub proof fn a_pin_reference_stands_for_its_pin(
    t: TableV,
    r: Seq<char>,
    n: Seq<char>,
    p: PinSpot,
    ctx: Seq<char>,
)
    requires
        pin_of(t, r, n, p),
        tight(r + "."@ + n),
        forall|i: int| 0 <= i < r.len() ==> !#[trigger] splits(t, r, i),
    ensures
        ({
            let f = pinref::found_point(t, JsonV::Str(r + "."@ + n), ctx);
            &&& f.error is None
            &&& f.x == 1000 * p.x
            &&& f.y == 1000 * p.y
            &&& f.dir == Some(p.dir)
        }),
{
    reveal_strlit(".");
    let s = r + "."@ + n;
    lemma_tight(s);
    lemma_first_dot(s, 0);
    lemma_part_dot(t, s, 0);
    let k = r.len() as int;
    assert(s[k] == '.');
    assert(s.take(k) =~= r);
    assert(splits(t, s, k));
    assert(s.skip(k + 1) =~= n);
    let d = pinref::part_dot(t, s, 0);
    if d < k {
        assert(splits(t, s, d));
        assert(s.take(d) =~= r.take(d));
        assert(splits(t, r, d));
    }
    assert(d == k);
    if pinref::first_dot(s, 0) >= s.len() {
        assert(s[k] != '.');
    }
}

/// Two numbers stand for the point that they are.
pub proof fn a_coordinate_stands_for_itself(t: TableV, a: Seq<JsonV>, ctx: Seq<char>)
    requires
        a.len() == 2,
        json::num_in(a[0]) is Some,
        json::num_in(a[1]) is Some,
    ensures
        pinref::found_point(t, JsonV::Arr(a), ctx) == (FoundV {
            x: json::num_in(a[0])->0,
            y: json::num_in(a[1])->0,
            dir: None,
            error: None,
        }),
{
}

/// Whether a written point stands for something: two numbers, or a text that without the white
/// space around it names a pin of a part.
pub open spec fn means_a_point(t: TableV, v: JsonV) -> bool {
    match v {
        JsonV::Arr(a) => a.len() == 2 && json::num_in(a[0]) is Some && json::num_in(a[1]) is Some,
        JsonV::Str(raw) => exists|r: Seq<char>, n: Seq<char>, p: PinSpot|
            pinref::trimmed(raw) == r + "."@ + n && #[trigger] pin_of(t, r, n, p),
        _ => false,
    }
}

/// A written point that stands for nothing is refused with a message.
pub proof fn what_stands_for_no_point_is_refused(t: TableV, v: JsonV, ctx: Seq<char>)
    ensures
        !means_a_point(t, v) ==> pinref::found_point(t, v, ctx).error is Some,
{
    match v {
        JsonV::Str(raw) => {
            reveal_strlit(".");
            let s = pinref::trimmed(raw);
            lemma_part_dot(t, s, 0);
            let k = pinref::part_dot(t, s, 0);
            if pinref::found_point(t, v, ctx).error is None {
                let r = s.take(k);
                let n = s.skip(k + 1);
                let p = look(look(t, r)->0, n)->0;
                assert(s =~= r + "."@ + n);
                assert(pin_of(t, r, n, p));
            }
        },
        _ => {},
    }
}

// ---------------------------------------------------------------- the pins of a unit
/// Whether a pin is known by a text: its number, or its name where it has one.
pub open spec fn known_by(p: Pin, k: Seq<char>) -> bool {
    p.number@ == k || p.name@.len() > 0 && p.name@ == k
}

proof fn lemma_put_new(v: SpotsV, k: Seq<char>, p: PinSpot)
    ensures
        look(pinref::put_new(v, k, p), k) == (if look(v, k) is Some {
            look(v, k)
        } else {
            Some(p)
        }),
        forall|q: Seq<char>| q != k ==> #[trigger] look(pinref::put_new(v, k, p), q) == look(v, q),
{
    if look(v, k) is None {
        order_map::lemma_seek(v, k, 0);
        order_map::put_then_look(v, k, p);
        assert(order_map::put(v, k, p) == v.push((k, p)));
    }
}

/// A number or a name finds the first pin that is known by it, and that pin stands where the place
/// and the turn of its part put it.
pub proof fn a_pin_is_found_by_number_and_by_name(
    pins: Seq<Pin>,
    rot: int,
    mirror: Seq<char>,
    ax: int,
    ay: int,
    n: int,
    k: Seq<char>,
)
    requires
        0 <= n <= pins.len(),
    ensures
        forall|j: int|
            0 <= j < n && #[trigger] known_by(pins[j], k) && (forall|i: int|
                0 <= i < j ==> !#[trigger] known_by(pins[i], k)) ==> look(
                pinref::unit_spots(pins, rot, mirror, ax, ay, n),
                k,
            ) == Some(pinref::spot_of(pins[j], rot, mirror, ax, ay)),
        (forall|j: int| 0 <= j < n ==> !#[trigger] known_by(pins[j], k)) ==> look(
            pinref::unit_spots(pins, rot, mirror, ax, ay, n),
            k,
        ) is None,
    decreases n,
{
    if n > 0 {
        a_pin_is_found_by_number_and_by_name(pins, rot, mirror, ax, ay, n - 1, k);
        let v = pinref::unit_spots(pins, rot, mirror, ax, ay, n - 1);
        let p = pins[n - 1];
        let s = pinref::spot_of(p, rot, mirror, ax, ay);
        lemma_put_new(v, p.number@, s);
        lemma_put_new(pinref::put_new(v, p.number@, s), p.name@, s);
        let r = pinref::unit_spots(pins, rot, mirror, ax, ay, n);
        assert(look(r, k) == (if look(v, k) is Some {
            look(v, k)
        } else if known_by(p, k) {
            Some(s)
        } else {
            None
        }));
        assert forall|j: int|
            0 <= j < n && #[trigger] known_by(pins[j], k) && (forall|i: int|
                0 <= i < j ==> !#[trigger] known_by(pins[i], k)) implies look(r, k) == Some(
            pinref::spot_of(pins[j], rot, mirror, ax, ay),
        ) by {
            if j == n - 1 {
                assert(forall|i: int| 0 <= i < n - 1 ==> !#[trigger] known_by(pins[i], k));
            }
        }
    }
}

// ---------------------------------------------------------------- wires
/// What is written for a point of a wire, on the half grid.
pub open spec fn half_of(t: TableV, v: JsonV, ctx: Seq<char>) -> JsonV {
    let f = pinref::found_point(t, v, ctx);
    pinref::half_point((f.x, f.y))
}

/// Whether a wire leads from one point to another.
pub open spec fn leads(w: JsonV, a: JsonV, b: JsonV) -> bool {
    w is Arr && w->Arr_0.len() >= 2 && w->Arr_0[0] == a && w->Arr_0.last() == b
}

proof fn lemma_path(t: TableV, v: Seq<JsonV>, ctx: Seq<char>, n: int)
    requires
        0 <= n <= v.len(),
    ensures
        pinref::found_path(t, v, ctx, n).pts.len() == n,
        forall|i: int|
            0 <= i < n ==> #[trigger] pinref::found_path(t, v, ctx, n).pts[i] == (
                pinref::found_point(t, v[i], ctx).x,
                pinref::found_point(t, v[i], ctx).y,
            ),
        pinref::found_path(t, v, ctx, n).errors.len() == 0 <==> forall|i: int|
            0 <= i < n ==> (#[trigger] pinref::found_point(t, v[i], ctx)).error is None,
    decreases n,
{
    if n > 0 {
        lemma_path(t, v, ctx, n - 1);
        let s = pinref::found_path(t, v, ctx, n - 1);
        let r = pinref::found_path(t, v, ctx, n);
        if r.errors.len() == 0 {
            assert forall|i: int| 0 <= i < n implies (#[trigger] pinref::found_point(
                t,
                v[i],
                ctx,
            )).error is None by {
                if i < n - 1 {
                    assert(s.errors.len() == 0);
                }
            }
        }
    }
}

proof fn lemma_spaced(w: Seq<StepV>, n: int)
    requires
        0 < n <= w.len(),
    ensures
        pinref::spaced(w, n).len() >= 1,
        pinref::spaced(w, n)[0] == w[0],
        pinref::same_halves(pinref::spaced(w, n).last(), w[n - 1]),
        pinref::spaced(w, n).len() == 1 ==> forall|i: int|
            0 <= i < n ==> pinref::same_halves(w[0], #[trigger] w[i]),
    decreases n,
{
    if n > 1 {
        lemma_spaced(w, n - 1);
        let s = pinref::spaced(w, n - 1);
        let r = pinref::spaced(w, n);
        if r.len() == 1 {
            assert(s.len() == 1);
            assert(r == s);
            assert(pinref::same_halves(s.last(), w[n - 1]));
        }
    } else {
        assert(pinref::spaced(w, 0).len() == 0);
        assert(pinref::spaced(w, 1) =~= seq![w[0]]);
    }
}

/// Whether one of some wires leads from one point to another.
pub open spec fn some_leads(v: Seq<JsonV>, a: JsonV, b: JsonV) -> bool {
    exists|i: int| 0 <= i < v.len() && leads(#[trigger] v[i], a, b)
}

proof fn lemma_clean(v: Seq<Seq<StepV>>, n: int, i: int)
    requires
        0 <= i < n <= v.len(),
        v[i].len() > 0,
        exists|j: int| 0 <= j < v[i].len() && !pinref::same_halves(v[i][0], #[trigger] v[i][j]),
    ensures
        some_leads(
            pinref::clean_wires(v, n),
            pinref::half_point(v[i][0]),
            pinref::half_point(v[i].last()),
        ),
    decreases n,
{
    let s = pinref::clean_wires(v, n - 1);
    let r = pinref::clean_wires(v, n);
    let a = pinref::half_point(v[i][0]);
    let b = pinref::half_point(v[i].last());
    if i < n - 1 {
        lemma_clean(v, n - 1, i);
        let m = choose|m: int| 0 <= m < s.len() && leads(#[trigger] s[m], a, b);
        assert(r[m] == s[m]);
    } else {
        lemma_spaced(v[i], v[i].len() as int);
        let w = pinref::spaced(v[i], v[i].len() as int);
        let j = choose|j: int| 0 <= j < v[i].len() && !pinref::same_halves(v[i][0], #[trigger] v[i][j]);
        assert(w.len() >= 2);
        assert(r == s.push(pinref::half_path(w)));
        let y = r[s.len() as int];
        assert(y->Arr_0[0] == pinref::half_point(w[0]));
        assert(y->Arr_0.last() == pinref::half_point(w.last()));
        assert(leads(y, a, b));
    }
}

proof fn lemma_found_wires(t: TableV, v: Seq<JsonV>, n: int, i: int)
    requires
        0 <= i < n <= v.len(),
        v[i] is Arr,
        v[i]->Arr_0.len() >= 2,
    ensures
        exists|m: int|
            0 <= m < pinref::found_wires(t, v, n).wires.len() && #[trigger] pinref::found_wires(
                t,
                v,
                n,
            ).wires[m] == pinref::found_path(
                t,
                v[i]->Arr_0,
                pinref::wire_ctx(i),
                v[i]->Arr_0.len() as int,
            ).pts,
    decreases n,
{
    let s = pinref::found_wires(t, v, n - 1);
    let r = pinref::found_wires(t, v, n);
    let w = pinref::found_path(t, v[i]->Arr_0, pinref::wire_ctx(i), v[i]->Arr_0.len() as int).pts;
    if i < n - 1 {
        lemma_found_wires(t, v, n - 1, i);
        let m = choose|m: int| 0 <= m < s.wires.len() && #[trigger] s.wires[m] == w;
        assert(r.wires[m] == w);
    } else {
        assert(r.wires[s.wires.len() as int] == w);
    }
}

proof fn lemma_keys()
    ensures
        "wires"@ != "nc"@,
{
    reveal_strlit("wires");
    reveal_strlit("nc");
    assert("wires"@.len() != "nc"@.len());
}

/// The wires of a design whose references are resolved.
pub open spec fn wires_of(d: Seq<(Seq<char>, JsonV)>, t: TableV) -> Seq<JsonV> {
    list_at(pinref::resolved_refs(d, t).d, "wires"@)
}

spec fn raw_wires(d: Seq<(Seq<char>, JsonV)>, t: TableV) -> Seq<Seq<StepV>> {
    let w0 = list_at(d, "wires"@);
    let l0 = list_at(d, "labels"@);
    let p0 = list_at(d, "power"@);
    let x0 = list_at(d, "texts"@);
    pinref::found_wires(t, w0, w0.len() as int).wires + pinref::found_items(
        t,
        "labels"@,
        l0,
        l0.len() as int,
    ).wires + pinref::found_items(t, "power"@, p0, p0.len() as int).wires + pinref::found_items(
        t,
        "texts"@,
        x0,
        x0.len() as int,
    ).wires
}

proof fn lemma_wires_of(d: Seq<(Seq<char>, JsonV)>, t: TableV)
    ensures
        wires_of(d, t) == pinref::clean_wires(raw_wires(d, t), raw_wires(d, t).len() as int),
{
    lemma_keys();
    let n0 = list_at(d, "nc"@);
    let n = pinref::found_marks(t, n0, n0.len() as int);
    let wires = raw_wires(d, t);
    let clean = JsonV::Arr(pinref::clean_wires(wires, wires.len() as int));
    let l0 = list_at(d, "labels"@);
    let l = pinref::found_items(t, "labels"@, l0, l0.len() as int);
    let d1 = order_map::put(d, "labels"@, JsonV::Arr(l.items));
    let p0 = list_at(d, "power"@);
    let p = pinref::found_items(t, "power"@, p0, p0.len() as int);
    let d2 = order_map::put(d1, "power"@, JsonV::Arr(p.items));
    let x0 = list_at(d, "texts"@);
    let x = pinref::found_items(t, "texts"@, x0, x0.len() as int);
    let d3 = order_map::put(d2, "texts"@, JsonV::Arr(x.items));
    let d4 = pinref::list_on_half_grid(
        pinref::list_on_half_grid(pinref::list_on_half_grid(d3, "parts"@), "power"@),
        "labels"@,
    );
    let d5 = order_map::put(d4, "wires"@, clean);
    assert(pinref::resolved_refs(d, t).d == order_map::put(d5, "nc"@, pinref::half_path(n.pts)));
    order_map::put_then_look(d4, "wires"@, clean);
    order_map::put_then_look(d5, "nc"@, pinref::half_path(n.pts));
}

/// A wire between two points or more that do not all fall on one point of the half grid leads,
/// once its references are resolved, from where its first point is to where its last point is.
pub proof fn a_wire_leads_where_its_points_are(d: Seq<(Seq<char>, JsonV)>, t: TableV, i: int)
    requires
        0 <= i < list_at(d, "wires"@).len(),
        list_at(d, "wires"@)[i] is Arr,
        list_at(d, "wires"@)[i]->Arr_0.len() >= 2,
        exists|j: int|
            0 <= j < list_at(d, "wires"@)[i]->Arr_0.len() && half_of(
                t,
                #[trigger] list_at(d, "wires"@)[i]->Arr_0[j],
                pinref::wire_ctx(i),
            ) != half_of(t, list_at(d, "wires"@)[i]->Arr_0[0], pinref::wire_ctx(i)),
    ensures
        some_leads(
            wires_of(d, t),
            half_of(t, list_at(d, "wires"@)[i]->Arr_0[0], pinref::wire_ctx(i)),
            half_of(t, list_at(d, "wires"@)[i]->Arr_0.last(), pinref::wire_ctx(i)),
        ),
{
    let w0 = list_at(d, "wires"@);
    let ctx = pinref::wire_ctx(i);
    let pts = w0[i]->Arr_0;
    let path = pinref::found_path(t, pts, ctx, pts.len() as int).pts;
    lemma_path(t, pts, ctx, pts.len() as int);
    lemma_found_wires(t, w0, w0.len() as int, i);
    let fw = pinref::found_wires(t, w0, w0.len() as int).wires;
    let m = choose|m: int| 0 <= m < fw.len() && #[trigger] fw[m] == path;
    let all = raw_wires(d, t);
    assert(all[m] == fw[m]);
    lemma_wires_of(d, t);
    let j = choose|j: int|
        0 <= j < pts.len() && half_of(t, #[trigger] pts[j], ctx) != half_of(t, pts[0], ctx);
    assert(path[j] == (
        pinref::found_point(t, pts[j], ctx).x,
        pinref::found_point(t, pts[j], ctx).y,
    ));
    assert(path[0] == (
        pinref::found_point(t, pts[0], ctx).x,
        pinref::found_point(t, pts[0], ctx).y,
    ));
    assert(!pinref::same_halves(all[m][0], all[m][j]));
    lemma_clean(all, all.len() as int, m);
    assert(path.last() == path[pts.len() - 1]);
}

/// What an item that names a pin becomes: it stands off the pin by its stub along the way the pin
/// points, and where that is somewhere else a wire leads from the pin to it.
pub proof fn an_item_at_a_pin_stands_off_it(
    t: TableV,
    key: Seq<char>,
    ctx: Seq<char>,
    it: JsonV,
)
    requires
        json::field(it, "pin"@) is Some,
        json::field(it, "at"@) is None,
        pinref::found_point(t, json::field(it, "pin"@)->0, ctx).error is None,
        pinref::found_point(t, json::field(it, "pin"@)->0, ctx).dir is Some,
    ensures
        ({
            let f = pinref::found_point(t, json::field(it, "pin"@)->0, ctx);
            let stub = pinref::stub_of(json::entries_of(it), key);
            let r = pinref::found_item(t, key, ctx, it);
            let d = f.dir->0;
            let off = d != (0i32, 0i32) && stub != 0;
            let p = if off {
                (f.x + d.0 * stub * 1_000_000, f.y + d.1 * stub * 1_000_000)
            } else {
                (f.x, f.y)
            };
            &&& r.error is None
            &&& look(r.m, "at"@) == Some(JsonV::Arr(seq![JsonV::Dec(p.0), JsonV::Dec(p.1)]))
            &&& off ==> r.wire == Some(seq![(f.x, f.y), p])
            &&& !off ==> r.wire is None
            &&& forall|q: Seq<char>|
                q != "at"@ && q != "rot"@ ==> #[trigger] look(r.m, q) == json::field(it, q)
            &&& look(r.m, "rot"@) == (if json::field(it, "rot"@) is None && key == "labels"@ && d != (
                0i32,
                0i32,
            ) {
                Some(JsonV::Int(pinref::label_turn(d)))
            } else {
                json::field(it, "rot"@)
            })
        }),
{
    reveal_strlit("at");
    reveal_strlit("rot");
    let f = pinref::found_point(t, json::field(it, "pin"@)->0, ctx);
    let m = json::entries_of(it);
    let stub = pinref::stub_of(m, key);
    let d = f.dir->0;
    let off = d != (0i32, 0i32) && stub != 0;
    let p = if off {
        (f.x + d.0 * stub * 1_000_000, f.y + d.1 * stub * 1_000_000)
    } else {
        (f.x, f.y)
    };
    let m1 = order_map::put(m, "at"@, pinref::step_json(p.0, p.1));
    order_map::put_then_look(m, "at"@, pinref::step_json(p.0, p.1));
    order_map::put_then_look(m1, "rot"@, JsonV::Int(pinref::label_turn(d)));
    assert("at"@.len() != "rot"@.len());
}

} // verus!
