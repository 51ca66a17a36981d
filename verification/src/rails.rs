//! Rails of a floor plan: on which line each one runs, how it is drawn, and where a port leaves.
use crate::emit;
use crate::emit::{snap_sum, Dir, EmitError, EmitErrorV, Gallery, SchematicWriter, WriterV};
use crate::flex::cut_wide;
use crate::floorplan::{Band, Side};
use crate::geom;
use crate::geom::{max_i, min_i, BBox, Pt};
use crate::order;
use crate::order::order_by_key;
use crate::order_map;
use crate::orient;
use crate::orient::cut_off;
use crate::reconcile;
use crate::reconcile::find_named;
use crate::text;
use crate::text::{ascii_upper, same, starts_with, Line};
use vstd::prelude::*;

verus! {

/// Where a pin ends, and which way it points.
pub type End = (Pt, Dir);

// ---------------------------------------------------------------- the room of a net
/// The box around the first `n` ends.
pub open spec fn reach(v: Seq<End>, n: int) -> BBox
    decreases n,
{
    if n <= 1 {
        BBox { x0: v[0].0.x, y0: v[0].0.y, x1: v[0].0.x, y1: v[0].0.y }
    } else {
        let b = reach(v, n - 1);
        let p = v[n - 1].0;
        BBox {
            x0: geom::lo(b.x0 as int, p.x as int) as i64,
            y0: geom::lo(b.y0 as int, p.y as int) as i64,
            x1: geom::hi(b.x1 as int, p.x as int) as i64,
            y1: geom::hi(b.y1 as int, p.y as int) as i64,
        }
    }
}

fn reach_of(v: &Vec<End>) -> (r: BBox)
    requires
        v@.len() > 0,
    ensures
        r == reach(v@, v@.len() as int),
{
    let p = v[0].0;
    let mut b = BBox { x0: p.x, y0: p.y, x1: p.x, y1: p.y };
    let mut i: usize = 1;
    while i < v.len()
        invariant
            1 <= i <= v@.len(),
            b == reach(v@, i as int),
        decreases v@.len() - i,
    {
        let q = v[i].0;
        b = BBox {
            x0: min_i(b.x0, q.x),
            y0: min_i(b.y0, q.y),
            x1: max_i(b.x1, q.x),
            y1: max_i(b.y1, q.y),
        };
        i += 1;
    }
    b
}

// ---------------------------------------------------------------- lines for rails
/// A rail that is drawn as a wire, and the room of its pins.
#[derive(Debug, Clone)]
pub struct Rail {
    pub net: String,
    pub room: BBox,
}

pub struct RailV {
    pub net: Seq<char>,
    pub room: BBox,
}

impl View for Rail {
    type V = RailV;

    open spec fn view(&self) -> RailV {
        RailV { net: self.net@, room: self.room }
    }
}

pub open spec fn rails_v(v: Seq<Rail>) -> Seq<RailV> {
    Seq::new(v.len(), |i: int| v[i]@)
}

/// Those of the first `n` rails that are in a band and have three pins or more.
pub open spec fn drawn(
    rails: Seq<(String, Band)>,
    ends: Seq<(String, Vec<End>)>,
    band: Band,
    n: int,
) -> Seq<RailV>
    decreases n,
{
    if n <= 0 {
        Seq::empty()
    } else {
        let rest = drawn(rails, ends, band, n - 1);
        match order_map::look(reconcile::named(ends), rails[n - 1].0@) {
            Some(e) => if rails[n - 1].1 == band && e@.len() >= 3 {
                rest.push(RailV { net: rails[n - 1].0@, room: reach(e@, e@.len() as int) })
            } else {
                rest
            },
            None => rest,
        }
    }
}

pub open spec fn left_keys(v: Seq<RailV>) -> Seq<(i64, i64, i64)> {
    Seq::new(v.len(), |i: int| (v[i].room.x0, 0i64, 0i64))
}

/// From left to right.
pub open spec fn sorted(v: Seq<RailV>) -> Seq<RailV> {
    let o = order::by_key(left_keys(v));
    Seq::new(v.len(), |i: int| v[o[i]])
}

/// Whether two rails can run on one line.
pub open spec fn side_by_side(a: RailV, b: RailV) -> bool {
    a.room.x1 < b.room.x0 || a.room.x0 > b.room.x1
}

/// Whether a line is free for rail `k`.
pub open spec fn free(v: Seq<RailV>, lines: Seq<int>, k: int, l: int) -> bool {
    forall|j: int| 0 <= j < k && #[trigger] lines[j] == l ==> side_by_side(v[k], v[j])
}

/// The first line from `l` on that is free for rail `k`.
pub open spec fn first_free(v: Seq<RailV>, lines: Seq<int>, k: int, l: int) -> int
    decreases k - l,
{
    if l >= k || free(v, lines, k, l) {
        l
    } else {
        first_free(v, lines, k, l + 1)
    }
}

/// The lines of the first `n` rails.
pub open spec fn lines_of(v: Seq<RailV>, n: int) -> Seq<int>
    decreases n,
{
    if n <= 0 {
        Seq::empty()
    } else {
        let rest = lines_of(v, n - 1);
        rest.push(first_free(v, rest, n - 1, 0))
    }
}

/// The edge of the pins of the first `n` rails.
pub open spec fn edge_y(v: Seq<RailV>, band: Band, n: int) -> i64
    decreases n,
{
    let own = match band {
        Band::Top => v[n - 1].room.y0,
        Band::Bottom => v[n - 1].room.y1,
    };
    if n <= 1 {
        own
    } else {
        match band {
            Band::Top => geom::lo(edge_y(v, band, n - 1) as int, own as int) as i64,
            Band::Bottom => geom::hi(edge_y(v, band, n - 1) as int, own as int) as i64,
        }
    }
}

/// The height of a line: the lines of a band go away from the pins.
pub open spec fn line_y(edge: i64, band: Band, l: int) -> i64 {
    match band {
        Band::Top => orient::cut(edge - 508_000 - 635_000 * l),
        Band::Bottom => orient::cut(edge + 508_000 + 635_000 * l),
    }
}

/// The rails of a band with their heights.
pub open spec fn band_levels(
    rails: Seq<(String, Band)>,
    ends: Seq<(String, Vec<End>)>,
    band: Band,
) -> Seq<(Seq<char>, i64)> {
    let v = sorted(drawn(rails, ends, band, rails.len() as int));
    let lines = lines_of(v, v.len() as int);
    let edge = edge_y(v, band, v.len() as int);
    Seq::new(v.len(), |i: int| (v[i].net, line_y(edge, band, lines[i])))
}

fn is_free(v: &Vec<Rail>, lines: &Vec<usize>, k: usize, l: usize) -> (r: bool)
    requires
        k < v@.len(),
        k == lines@.len(),
    ensures
        r == free(rails_v(v@), order::as_ints(lines@), k as int, l as int),
{
    let ghost vv = rails_v(v@);
    let ghost lv = order::as_ints(lines@);
    let mut j: usize = 0;
    while j < k
        invariant
            j <= k < v@.len(),
            k == lines@.len(),
            vv == rails_v(v@),
            lv == order::as_ints(lines@),
            forall|i: int| 0 <= i < j && #[trigger] lv[i] == l ==> side_by_side(vv[k as int], vv[i]),
        decreases k - j,
    {
        assert(lv[j as int] == lines@[j as int]);
        assert(vv[j as int] == v@[j as int]@ && vv[k as int] == v@[k as int]@);
        let beside = v[k].room.x1 < v[j].room.x0 || v[k].room.x0 > v[j].room.x1;
        if lines[j] == l && !beside {
            assert(lv[j as int] == l);
            return false;
        }
        j += 1;
    }
    true
}

fn list_lines(v: &Vec<Rail>) -> (r: Vec<usize>)
    ensures
        order::as_ints(r@) == lines_of(rails_v(v@), v@.len() as int),
        r@.len() == v@.len(),
{
    let ghost vv = rails_v(v@);
    let mut r: Vec<usize> = Vec::new();
    let mut k: usize = 0;
    assert(order::as_ints(r@) =~= Seq::empty());
    while k < v.len()
        invariant
            k <= v@.len(),
            r@.len() == k,
            vv == rails_v(v@),
            order::as_ints(r@) == lines_of(vv, k as int),
        decreases v@.len() - k,
    {
        let ghost lv = order::as_ints(r@);
        let mut l: usize = 0;
        while l < k && !is_free(v, &r, k, l)
            invariant
                l <= k,
                k < v@.len(),
                r@.len() == k,
                vv == rails_v(v@),
                lv == order::as_ints(r@),
                first_free(vv, lv, k as int, 0) == first_free(vv, lv, k as int, l as int),
            decreases k - l,
        {
            l += 1;
        }
        r.push(l);
        assert(order::as_ints(r@) =~= lv.push(l as int));
        k += 1;
    }
    r
}

fn list_drawn(
    rails: &Vec<(String, Band)>,
    ends: &Vec<(String, Vec<End>)>,
    band: Band,
) -> (r: Vec<Rail>)
    ensures
        rails_v(r@) == drawn(rails@, ends@, band, rails@.len() as int),
{
    let mut r: Vec<Rail> = Vec::new();
    let mut i: usize = 0;
    assert(rails_v(r@) =~= Seq::empty());
    while i < rails.len()
        invariant
            i <= rails@.len(),
            rails_v(r@) == drawn(rails@, ends@, band, i as int),
        decreases rails@.len() - i,
    {
        let ghost rv = rails_v(r@);
        if let Some(e) = find_named(ends, rails[i].0.as_str()) {
            if rails[i].1 == band && e.len() >= 3 {
                let x = Rail { net: rails[i].0.clone(), room: reach_of(e) };
                let ghost xv = x@;
                r.push(x);
                assert(rails_v(r@) =~= rv.push(xv));
            }
        }
        i += 1;
    }
    r
}

fn sort_rails(v: &Vec<Rail>) -> (r: Vec<Rail>)
    ensures
        rails_v(r@) == sorted(rails_v(v@)),
{
    let ghost vv = rails_v(v@);
    let mut keys: Vec<(i64, i64, i64)> = Vec::new();
    let mut i: usize = 0;
    while i < v.len()
        invariant
            i <= v@.len(),
            keys@.len() == i,
            forall|k: int| 0 <= k < i ==> #[trigger] keys@[k] == (v@[k].room.x0, 0i64, 0i64),
        decreases v@.len() - i,
    {
        keys.push((v[i].room.x0, 0, 0));
        i += 1;
    }
    assert(keys@ =~= left_keys(vv));
    let o = order_by_key(&keys);
    let ghost ov = order::as_ints(o@);
    let mut r: Vec<Rail> = Vec::new();
    i = 0;
    while i < o.len()
        invariant
            i <= o@.len(),
            o@.len() == v@.len(),
            vv == rails_v(v@),
            ov == order::as_ints(o@),
            forall|k: int| 0 <= k < o@.len() ==> #[trigger] o@[k] < v@.len(),
            r@.len() == i,
            forall|k: int| 0 <= k < i ==> #[trigger] r@[k]@ == vv[ov[k]],
        decreases o@.len() - i,
    {
        assert(ov[i as int] == o@[i as int]);
        let x = &v[o[i]];
        assert(x@ == vv[ov[i as int]]);
        r.push(Rail { net: x.net.clone(), room: x.room });
        i += 1;
    }
    assert(rails_v(r@) =~= sorted(vv));
    r
}

fn edge_of(v: &Vec<Rail>, band: Band) -> (r: i64)
    requires
        v@.len() > 0,
    ensures
        r == edge_y(rails_v(v@), band, v@.len() as int),
{
    let ghost vv = rails_v(v@);
    assert(vv[0] == v@[0]@);
    let mut r: i64 = match band {
        Band::Top => v[0].room.y0,
        Band::Bottom => v[0].room.y1,
    };
    let mut i: usize = 1;
    while i < v.len()
        invariant
            1 <= i <= v@.len(),
            vv == rails_v(v@),
            r == edge_y(vv, band, i as int),
        decreases v@.len() - i,
    {
        assert(vv[i as int] == v@[i as int]@);
        r = match band {
            Band::Top => min_i(r, v[i].room.y0),
            Band::Bottom => max_i(r, v[i].room.y1),
        };
        i += 1;
    }
    r
}

fn add_band(
    out: &mut Vec<(String, i64)>,
    rails: &Vec<(String, Band)>,
    ends: &Vec<(String, Vec<End>)>,
    band: Band,
)
    ensures
        reconcile::named(final(out)@) == reconcile::named(old(out)@) + band_levels(
            rails@,
            ends@,
            band,
        ),
{
    let ghost o = reconcile::named(out@);
    let list = list_drawn(rails, ends, band);
    let v = sort_rails(&list);
    let ghost vv = rails_v(v@);
    let ghost want = band_levels(rails@, ends@, band);
    assert(vv == sorted(drawn(rails@, ends@, band, rails@.len() as int)));
    assert(want.len() == v@.len());
    if v.len() == 0 {
        assert(o + want =~= o);
        return;
    }
    let lines = list_lines(&v);
    let ghost lv = order::as_ints(lines@);
    let edge = edge_of(&v, band);
    let mut i: usize = 0;
    assert(o =~= o + want.take(0));
    while i < v.len()
        invariant
            i <= v@.len(),
            v@.len() == lines@.len(),
            vv == rails_v(v@),
            lv == order::as_ints(lines@),
            want.len() == v@.len(),
            forall|k: int|
                0 <= k < want.len() ==> #[trigger] want[k] == (
                    vv[k].net,
                    line_y(edge, band, lv[k]),
                ),
            reconcile::named(out@) == o + want.take(i as int),
        decreases v@.len() - i,
    {
        assert(lv[i as int] == lines@[i as int]);
        assert(vv[i as int] == v@[i as int]@);
        let l = lines[i] as i128;
        let y = match band {
            Band::Top => cut_wide(edge as i128 - 508_000 - 635_000 * l),
            Band::Bottom => cut_wide(edge as i128 + 508_000 + 635_000 * l),
        };
        let ghost ov = reconcile::named(out@);
        assert(want[i as int] == (v@[i as int].net@, y));
        out.push((v[i].net.clone(), y));
        assert(reconcile::named(out@) =~= ov.push(want[i as int]));
        assert(want.take(i + 1) =~= want.take(i as int).push(want[i as int]));
        assert(reconcile::named(out@) =~= o + want.take(i + 1));
        i += 1;
    }
    assert(want.take(i as int) =~= want);
}

/// The height of each rail that is drawn as a wire. Rails of a band that would overlap run on
/// different lines.
pub fn assign_rail_levels(
    ends: &Vec<(String, Vec<End>)>,
    rails: &Vec<(String, Band)>,
) -> (r: Vec<(String, i64)>)
    ensures
        reconcile::named(r@) == band_levels(rails@, ends@, Band::Top) + band_levels(
            rails@,
            ends@,
            Band::Bottom,
        ),
{
    let mut r: Vec<(String, i64)> = Vec::new();
    let ghost e = Seq::<(Seq<char>, i64)>::empty();
    assert(reconcile::named(r@) =~= e);
    add_band(&mut r, rails, ends, Band::Top);
    assert(reconcile::named(r@) =~= band_levels(rails@, ends@, Band::Top));
    add_band(&mut r, rails, ends, Band::Bottom);
    r
}

proof fn lemma_first_free(v: Seq<RailV>, lines: Seq<int>, k: int, l: int)
    requires
        0 <= l <= k,
        forall|j: int| 0 <= j < k ==> #[trigger] lines[j] <= j,
    ensures
        l <= first_free(v, lines, k, l) <= k,
        free(v, lines, k, first_free(v, lines, k, l)),
    decreases k - l,
{
    if l < k && !free(v, lines, k, l) {
        lemma_first_free(v, lines, k, l + 1);
    }
}

proof fn lemma_lines(v: Seq<RailV>, n: int)
    requires
        0 <= n,
    ensures
        lines_of(v, n).len() == n,
        forall|j: int| 0 <= j < n ==> 0 <= #[trigger] lines_of(v, n)[j] <= j,
        forall|j: int, k: int|
            0 <= j < k < n && #[trigger] lines_of(v, n)[j] == #[trigger] lines_of(v, n)[k]
                ==> side_by_side(v[k], v[j]),
    decreases n,
{
    if n > 0 {
        lemma_lines(v, n - 1);
        let rest = lines_of(v, n - 1);
        lemma_first_free(v, rest, n - 1, 0);
        let all = lines_of(v, n);
        assert forall|j: int| 0 <= j < n implies 0 <= #[trigger] all[j] <= j by {
            if j < n - 1 {
                assert(all[j] == rest[j]);
            }
        }
        assert forall|j: int, k: int|
            0 <= j < k < n && #[trigger] all[j] == #[trigger] all[k] implies side_by_side(
            v[k],
            v[j],
        ) by {
            assert(all[j] == rest[j]);
            if k < n - 1 {
                assert(all[k] == rest[k]);
            } else {
                assert(free(v, rest, n - 1, all[k]));
            }
        }
    }
}

/// Two rails on one line of a band stand side by side, so no two rails run into one wire.
pub proof fn rails_on_one_line_stand_apart(v: Seq<RailV>, j: int, k: int)
    requires
        0 <= j < k < v.len(),
        lines_of(v, v.len() as int)[j] == lines_of(v, v.len() as int)[k],
    ensures
        side_by_side(v[k], v[j]),
{
    lemma_lines(v, v.len() as int);
}

// ---------------------------------------------------------------- power symbols of rails
pub open spec fn rail_alias(u: Seq<char>) -> Seq<char> {
    if u == "3V3"@ || u == "+3V3"@ {
        "+3V3"@
    } else if u == "5V"@ || u == "+5V"@ {
        "+5V"@
    } else if u == "9V"@ || u == "+9V"@ {
        "+9V"@
    } else if u == "3.3V"@ {
        "+3.3V"@
    } else if u == "12V"@ || u == "+12V"@ {
        "+12V"@
    } else if u == "VCC"@ {
        "VCC"@
    } else if u == "VDD"@ {
        "VDD"@
    } else if text::starts(u, "GND"@) || text::starts(u, "VSS"@) || u == "AGND"@ || u == "DGND"@ {
        "GND"@
    } else {
        "VCC"@
    }
}

/// The power symbol of a net; a net that has none of its own is shown with another one's.
pub fn power_lib_id(net: &str) -> (r: String)
    ensures
        r@ == "power:"@ + rail_alias(text::ascii_uppercase(net@)),
{
    let u = ascii_upper(net);
    let s = u.as_str();
    let alias: &str = if same(s, "3V3") || same(s, "+3V3") {
        "+3V3"
    } else if same(s, "5V") || same(s, "+5V") {
        "+5V"
    } else if same(s, "9V") || same(s, "+9V") {
        "+9V"
    } else if same(s, "3.3V") {
        "+3.3V"
    } else if same(s, "12V") || same(s, "+12V") {
        "+12V"
    } else if same(s, "VCC") {
        "VCC"
    } else if same(s, "VDD") {
        "VDD"
    } else if starts_with(s, "GND") || starts_with(s, "VSS") || same(s, "AGND") || same(s, "DGND") {
        "GND"
    } else {
        "VCC"
    };
    Line::of("power:").add(alias).done()
}

pub open spec fn symbol_angle(d: Dir) -> i32 {
    match d {
        Dir::East => 90,
        Dir::West => 270,
        _ => 0,
    }
}

/// How a power symbol at a pin is turned.
pub fn power_angle(d: Dir) -> (r: i32)
    ensures
        r == symbol_angle(d),
{
    match d {
        Dir::East => 90,
        Dir::West => 270,
        _ => 0,
    }
}

// ---------------------------------------------------------------- drawing a rail
/// With a power symbol at each of the first `n` pins.
pub open spec fn with_marks(w: WriterV, g: emit::SymbolGeometry, net: Seq<char>, v: Seq<End>, n: int) -> WriterV
    decreases n,
{
    if n <= 0 {
        w
    } else {
        with_marks(w, g, net, v, n - 1).with_symbol(
            g,
            "#PWR_"@ + net + "_"@ + text::digits((n - 1) as nat),
            net,
            v[n - 1].0,
            symbol_angle(v[n - 1].1),
            Seq::empty(),
            None,
        )
    }
}

/// Where a pin joins the rail: one that points to a side leads out first.
pub open spec fn join_x(e: End) -> i64 {
    (orient::cut(e.0.x as int) + (match e.1 {
        Dir::East => 254_000int,
        Dir::West => -254_000int,
        _ => 0int,
    })) as i64
}

fn joining(e: &End) -> (r: i64)
    ensures
        r == join_x(*e),
        -0x80_0010_0000 <= r <= 0x80_0010_0000,
{
    let x = cut_off(e.0.x);
    match e.1 {
        Dir::East => x + 254_000,
        Dir::West => x - 254_000,
        _ => x,
    }
}

pub open spec fn leftmost(v: Seq<End>, n: int) -> i64
    decreases n,
{
    if n <= 1 {
        join_x(v[0])
    } else {
        geom::lo(leftmost(v, n - 1) as int, join_x(v[n - 1]) as int) as i64
    }
}

pub open spec fn rightmost(v: Seq<End>, n: int) -> i64
    decreases n,
{
    if n <= 1 {
        join_x(v[0])
    } else {
        geom::hi(rightmost(v, n - 1) as int, join_x(v[n - 1]) as int) as i64
    }
}

/// With the first `n` pins joined to a rail.
pub open spec fn with_joins(w: WriterV, net: Seq<char>, v: Seq<End>, y: i64, n: int) -> WriterV
    decreases n,
{
    if n <= 0 {
        w
    } else {
        let t = with_joins(w, net, v, y, n - 1);
        let p = v[n - 1].0;
        let x = join_x(v[n - 1]);
        let u = if x != p.x {
            t.with_wire(p, Pt { x, y: p.y }, Some(net))
        } else {
            t
        };
        u.with_wire(Pt { x, y: p.y }, Pt { x, y }, Some(net)).with_junction(Pt { x, y })
    }
}

/// With the wire of a rail and its pins joined to it.
pub open spec fn with_rail_wires(w: WriterV, net: Seq<char>, v: Seq<End>, y: i64) -> WriterV {
    let n = v.len() as int;
    with_joins(
        w.with_wire(
            Pt { x: leftmost(v, n), y },
            Pt { x: rightmost(v, n), y },
            Some(net),
        ),
        net,
        v,
        y,
        n,
    )
}

/// Where the flag of a net goes.
pub open spec fn flag_spot(v: Seq<End>, y: Option<i64>) -> Option<Pt> {
    if y is Some && v.len() >= 3 {
        Some(Pt { x: (leftmost(v, v.len() as int) - 508_000) as i64, y: y->0 })
    } else if v.len() > 0 {
        Some(Pt { x: (orient::cut(v[0].0.x as int) - 508_000) as i64, y: v[0].0.y })
    } else {
        None
    }
}

/// The sheet with a rail; none where its symbol is not known.
pub open spec fn railed(
    w: WriterV,
    found: Option<emit::SymbolGeometry>,
    net: Seq<char>,
    v: Seq<End>,
    y: Option<i64>,
    flag: bool,
) -> Option<WriterV> {
    if y is Some && v.len() >= 3 {
        match found {
            Some(g) => {
                let x = leftmost(v, v.len() as int);
                let t = with_rail_wires(w, net, v, y->0).with_symbol(
                    g,
                    "#PWR_"@ + net,
                    net,
                    Pt { x, y: y->0 },
                    0,
                    Seq::empty(),
                    None,
                );
                Some(
                    if flag {
                        t.with_wire(Pt { x, y: y->0 }, flag_spot(v, y)->0, Some(net))
                    } else {
                        t
                    },
                )
            },
            None => None,
        }
    } else if v.len() == 0 {
        Some(w)
    } else {
        match found {
            Some(g) => {
                let t = with_marks(w, g, net, v, v.len() as int);
                Some(
                    if flag {
                        t.with_wire(v[0].0, flag_spot(v, y)->0, Some(net))
                    } else {
                        t
                    },
                )
            },
            None => None,
        }
    }
}

fn span_of(v: &Vec<End>) -> (r: (i64, i64))
    requires
        v@.len() > 0,
    ensures
        r.0 == leftmost(v@, v@.len() as int),
        r.1 == rightmost(v@, v@.len() as int),
        -0x80_0010_0000 <= r.0 <= 0x80_0010_0000,
{
    let mut a = joining(&v[0]);
    let mut b = a;
    let mut i: usize = 1;
    while i < v.len()
        invariant
            1 <= i <= v@.len(),
            a == leftmost(v@, i as int),
            b == rightmost(v@, i as int),
            -0x80_0010_0000 <= a <= 0x80_0010_0000,
        decreases v@.len() - i,
    {
        let x = joining(&v[i]);
        a = min_i(a, x);
        b = max_i(b, x);
        i += 1;
    }
    (a, b)
}

fn draw_rail_wires(w: &mut SchematicWriter, net: &str, v: &Vec<End>, y: i64, span: (i64, i64))
    requires
        v@.len() > 0,
        span.0 == leftmost(v@, v@.len() as int),
        span.1 == rightmost(v@, v@.len() as int),
    ensures
        final(w)@ == with_rail_wires(old(w)@, net@, v@, y),
{
    w.add_wire_on_net(Pt { x: span.0, y }, Pt { x: span.1, y }, net);
    let ghost w0 = w@;
    let mut i: usize = 0;
    while i < v.len()
        invariant
            i <= v@.len(),
            w@ == with_joins(w0, net@, v@, y, i as int),
        decreases v@.len() - i,
    {
        let p = v[i].0;
        let x = joining(&v[i]);
        if x != p.x {
            w.add_wire_on_net(p, Pt { x, y: p.y }, net);
        }
        w.add_wire_on_net(Pt { x, y: p.y }, Pt { x, y }, net);
        w.add_junction(Pt { x, y });
        i += 1;
    }
}

/// Draws a rail. With three pins or more and a height it is a wire with one power symbol at its
/// left end; else each pin has its own symbol. Gives where the flag of the net goes, where one is
/// wanted.
pub fn emit_rail(
    gallery: &Gallery,
    w: &mut SchematicWriter,
    net: &str,
    v: &Vec<End>,
    y: Option<i64>,
    flag: bool,
) -> (r: Result<Option<Pt>, EmitError>)
    ensures
        ({
            let lib = "power:"@ + rail_alias(text::ascii_uppercase(net@));
            match railed(old(w)@, gallery.found(lib), net@, v@, y, flag) {
                Some(t) => r is Ok && final(w)@ == t && r->Ok_0 == (if flag {
                    flag_spot(v@, y)
                } else {
                    None
                }),
                None => r is Err && r->Err_0@ == EmitErrorV::NoSymbol(lib),
            }
        }),
{
    let lib = power_lib_id(net);
    if v.len() >= 3 {
        if let Some(at) = y {
            let span = span_of(v);
            draw_rail_wires(w, net, v, at, span);
            let left = Pt { x: span.0, y: at };
            let name = Line::of("#PWR_").add(net).done();
            match w.add_power_symbol(gallery, lib.as_str(), name.as_str(), net, left, 0) {
                Ok(_) => {},
                Err(e) => {
                    return Err(e);
                },
            }
            if flag {
                let stub = Pt { x: span.0 - 508_000, y: at };
                w.add_wire_on_net(left, stub, net);
                return Ok(Some(stub));
            }
            return Ok(None);
        }
    }
    let ghost w0 = w@;
    let ghost found = gallery.found(lib@);
    let mut i: usize = 0;
    while i < v.len()
        invariant
            i <= v@.len(),
            found == gallery.found(lib@),
            lib@ == "power:"@ + rail_alias(text::ascii_uppercase(net@)),
            !(y is Some && v@.len() >= 3),
            w0 == old(w)@,
            i > 0 ==> found is Some,
            found is Some ==> w@ == with_marks(w0, found->0, net@, v@, i as int),
            i == 0 ==> w@ == w0,
        decreases v@.len() - i,
    {
        let name = Line::of("#PWR_").add(net).add("_").count(i as u128).done();
        let a = power_angle(v[i].1);
        match w.add_power_symbol(gallery, lib.as_str(), name.as_str(), net, v[i].0, a) {
            Ok(_) => {},
            Err(e) => {
                return Err(e);
            },
        }
        i += 1;
    }
    if flag && v.len() > 0 {
        let p = v[0].0;
        let stub = Pt { x: cut_off(p.x) - 508_000, y: p.y };
        w.add_wire_on_net(p, stub, net);
        return Ok(Some(stub));
    }
    Ok(None)
}

// ---------------------------------------------------------------- ports
/// Whether an end lies further out than another one on a side.
pub open spec fn further(a: End, b: End, s: Side) -> bool {
    match s {
        Side::Right => a.0.x >= b.0.x,
        Side::Left => a.0.x < b.0.x,
        Side::Top => a.0.y < b.0.y,
        Side::Bottom => a.0.y >= b.0.y,
    }
}

/// The outermost of the first `n` ends: of equals the last to the right and at the bottom, the
/// first to the left and at the top.
pub open spec fn outermost(v: Seq<End>, s: Side, n: int) -> int
    decreases n,
{
    if n <= 1 {
        0
    } else {
        let b = outermost(v, s, n - 1);
        if further(v[n - 1], v[b], s) {
            n - 1
        } else {
            b
        }
    }
}

/// Where a net leaves on a side: past its outermost pin, in line with it.
pub open spec fn exit_of(v: Seq<End>, s: Side) -> Pt {
    let p = v[outermost(v, s, v.len() as int)].0;
    match s {
        Side::Right => Pt { x: emit::snapped(p.x + 762_000), y: p.y },
        Side::Left => Pt { x: emit::snapped(p.x - 762_000), y: p.y },
        Side::Top => Pt { x: p.x, y: emit::snapped(p.y - 762_000) },
        Side::Bottom => Pt { x: p.x, y: emit::snapped(p.y + 762_000) },
    }
}

/// Where a net leaves on a side.
pub fn port_exit_point(v: &Vec<End>, s: Side) -> (r: Pt)
    requires
        v@.len() > 0,
    ensures
        r == exit_of(v@, s),
{
    let mut b: usize = 0;
    let mut i: usize = 1;
    while i < v.len()
        invariant
            1 <= i <= v@.len(),
            b < v@.len(),
            b == outermost(v@, s, i as int),
        decreases v@.len() - i,
    {
        let (p, q) = (v[i].0, v[b].0);
        let out = match s {
            Side::Right => p.x >= q.x,
            Side::Left => p.x < q.x,
            Side::Top => p.y < q.y,
            Side::Bottom => p.y >= q.y,
        };
        if out {
            b = i;
        }
        i += 1;
    }
    let p = v[b].0;
    match s {
        Side::Right => Pt { x: snap_sum(p.x as i128 + 762_000, 0).x, y: p.y },
        Side::Left => Pt { x: snap_sum(p.x as i128 - 762_000, 0).x, y: p.y },
        Side::Top => Pt { x: p.x, y: snap_sum(0, p.y as i128 - 762_000).y },
        Side::Bottom => Pt { x: p.x, y: snap_sum(0, p.y as i128 + 762_000).y },
    }
}

} // verus!
