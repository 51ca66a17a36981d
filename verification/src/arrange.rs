//! Arranging a sheet: several ways to pack its blocks, the best of them spread out and centred.
use crate::flex::cut_wide;
use crate::geo;
use crate::geo::{Geo, GeoV};
use crate::geom;
use crate::geom::{max_i, BBox, GRID};
use crate::orient;
use crate::pack;
use crate::pack::{pack_blocks_ordered, Area, Move, Packed};
use crate::text;
use crate::text::{same, Line};
use vstd::prelude::*;

verus! {

// ---------------------------------------------------------------- orders
/// The first place in an order whose key is larger.
pub open spec fn key_place(keys: Seq<i128>, o: Seq<usize>, k: i128, i: int) -> int
    decreases o.len() - i,
{
    if i < 0 || i >= o.len() || keys[o[i] as int] > k {
        i
    } else {
        key_place(keys, o, k, i + 1)
    }
}

/// The first `n` positions by ascending key, equal keys in the order they stand.
pub open spec fn by_key(keys: Seq<i128>, n: int) -> Seq<usize>
    decreases n,
{
    if n <= 0 {
        Seq::empty()
    } else {
        let o = by_key(keys, n - 1);
        o.insert(key_place(keys, o, keys[n - 1], 0), (n - 1) as usize)
    }
}

fn order_keys(keys: &Vec<i128>) -> (r: Vec<usize>)
    ensures
        r@ == by_key(keys@, keys@.len() as int),
        r@.len() == keys@.len(),
        forall|i: int| 0 <= i < r@.len() ==> #[trigger] r@[i] < keys@.len(),
{
    let mut r: Vec<usize> = Vec::new();
    let mut i: usize = 0;
    while i < keys.len()
        invariant
            i <= keys@.len(),
            r@ == by_key(keys@, i as int),
            r@.len() == i,
            forall|k: int| 0 <= k < r@.len() ==> #[trigger] r@[k] < i,
        decreases keys@.len() - i,
    {
        let ghost r0 = r@;
        let mut k: usize = 0;
        while k < r.len() && keys[r[k]] <= keys[i]
            invariant
                k <= r@.len(),
                i < keys@.len(),
                r@ == r0,
                forall|j: int| 0 <= j < r@.len() ==> #[trigger] r@[j] < i,
                key_place(keys@, r0, keys@[i as int], 0) == key_place(
                    keys@,
                    r0,
                    keys@[i as int],
                    k as int,
                ),
            decreases r@.len() - k,
        {
            assert(r@[k as int] < i);
            k += 1;
        }
        if k < r.len() {
            assert(r@[k as int] < i);
        }
        r.insert(k, i);
        assert forall|j: int| 0 <= j < r@.len() implies #[trigger] r@[j] < i + 1 by {
            if j < k {
                assert(r@[j] == r0[j]);
            } else if j > k {
                assert(r@[j] == r0[j - 1]);
            }
        }
        i += 1;
    }
    r
}

/// What the blocks are ordered by: nothing, height, area or width, the largest first.
pub open spec fn order_key(g: GeoV, i: int, kind: int) -> i128 {
    let b = geo::hull(g.boxes);
    let (w, h) = (b.x1 - b.x0, b.y1 - b.y0);
    (if kind == 0 {
        i
    } else if kind == 1 {
        -h
    } else if kind == 2 {
        -w * h
    } else {
        -w
    }) as i128
}

pub open spec fn order_keys_of(geos: Seq<GeoV>, kind: int) -> Seq<i128> {
    Seq::new(geos.len(), |i: int| order_key(geos[i], i, kind))
}

/// The order of the blocks by a kind of key.
pub open spec fn order_of(geos: Seq<GeoV>, kind: int) -> Seq<usize> {
    by_key(order_keys_of(geos, kind), geos.len() as int)
}

/// Whether every block is small enough to be arranged.
pub open spec fn blocks_near(geos: Seq<GeoV>) -> bool {
    forall|i: int| 0 <= i < geos.len() ==> (#[trigger] geos[i]).within(0x80_0000_0000)
}

/// The order of the blocks by a kind of key: as they stand, by height, by area or by width, the
/// largest first.
pub fn order_blocks(geos: &Vec<Geo>, kind: usize) -> (r: Vec<usize>)
    requires
        blocks_near(pack::geos_v(geos@)),
    ensures
        r@ == order_of(pack::geos_v(geos@), kind as int),
        forall|i: int| 0 <= i < r@.len() ==> #[trigger] r@[i] < geos@.len(),
{
    let ghost gv = pack::geos_v(geos@);
    let mut keys: Vec<i128> = Vec::new();
    let mut i: usize = 0;
    while i < geos.len()
        invariant
            i <= geos@.len(),
            gv == pack::geos_v(geos@),
            blocks_near(gv),
            keys@.len() == i,
            forall|k: int|
                0 <= k < i ==> #[trigger] keys@[k] == order_key(gv[k], k, kind as int),
        decreases geos@.len() - i,
    {
        assert(gv[i as int] == geos@[i as int]@);
        assert(gv[i as int].within(0x80_0000_0000));
        let b = geos[i].bbox();
        let (w, h): (i128, i128) = (b.x1 as i128 - b.x0 as i128, b.y1 as i128 - b.y0 as i128);
        assert(-0x1_0000_0000_0000_0000_0000 <= -w * h <= 0x1_0000_0000_0000_0000_0000)
            by (nonlinear_arith)
            requires
                -0x100_0000_0000 <= w <= 0x100_0000_0000,
                -0x100_0000_0000 <= h <= 0x100_0000_0000,
        ;
        let k: i128 = if kind == 0 {
            i as i128
        } else if kind == 1 {
            -h
        } else if kind == 2 {
            -w * h
        } else {
            -w
        };
        keys.push(k);
        i += 1;
    }
    assert(keys@ =~= order_keys_of(gv, kind as int));
    assert(gv.len() == geos@.len());
    order_keys(&keys)
}

// ---------------------------------------------------------------- trials
/// The share of the width that a trial uses, in hundredths.
pub open spec fn share(k: int) -> int {
    if k == 0 {
        100
    } else if k == 1 {
        85
    } else if k == 2 {
        70
    } else {
        55
    }
}

/// The area narrowed to a share of its width.
pub open spec fn narrowed(a: Area, k: int) -> Area {
    Area { xmax: orient::cut(a.x0 + (a.xmax - a.x0) * share(k) / 100), ..a }
}

fn narrow(a: &Area, k: usize) -> (r: Area)
    requires
        a.ok(),
    ensures
        r == narrowed(*a, k as int),
        r.ok(),
{
    let s: i128 = if k == 0 {
        100
    } else if k == 1 {
        85
    } else if k == 2 {
        70
    } else {
        55
    };
    let p: i128 = (a.xmax as i128 - a.x0 as i128) * s;
    let part: i128 = if p >= 0 {
        p / 100
    } else {
        -((-p + 99) / 100)
    };
    assert(part == p as int / 100);
    Area { xmax: cut_wide(a.x0 as i128 + part), ..*a }
}

/// A way to pack that came out.
#[derive(Debug)]
pub struct Trial {
    pub order: usize,
    pub width: usize,
    pub packed: Packed,
}

#[verifier::ext_equal]
pub struct TrialV {
    pub order: usize,
    pub width: usize,
    pub moves: Seq<Move>,
    pub sheet: GeoV,
}

impl Trial {
    pub open spec fn view(&self) -> TrialV {
        TrialV {
            order: self.order,
            width: self.width,
            moves: self.packed.moves@,
            sheet: self.packed.sheet@,
        }
    }
}

pub open spec fn trials_v(v: Seq<Trial>) -> Seq<TrialV> {
    Seq::new(v.len(), |i: int| v[i]@)
}

/// How many widths are tried: one where there are obstacles.
pub open spec fn widths(obstacles: Seq<BBox>) -> int {
    if obstacles.len() == 0 {
        4
    } else {
        1
    }
}

/// The trials of an order with the first `n` widths.
pub open spec fn order_trials(
    geos: Seq<GeoV>,
    a: Area,
    obstacles: Seq<BBox>,
    kind: int,
    n: int,
) -> Seq<TrialV>
    decreases n,
{
    if n <= 0 {
        Seq::empty()
    } else {
        let rest = order_trials(geos, a, obstacles, kind, n - 1);
        let o = order_of(geos, kind);
        match pack::packed(geos, o, narrowed(a, n - 1), obstacles, o.len() as int) {
            Some(s) => rest.push(
                TrialV {
                    order: kind as usize,
                    width: (n - 1) as usize,
                    moves: s.moves,
                    sheet: s.sheet,
                },
            ),
            None => rest,
        }
    }
}

/// The trials of the first `n` orders that came out.
pub open spec fn all_trials(geos: Seq<GeoV>, a: Area, obstacles: Seq<BBox>, n: int) -> Seq<TrialV>
    decreases n,
{
    if n <= 0 {
        Seq::empty()
    } else {
        all_trials(geos, a, obstacles, n - 1) + order_trials(
            geos,
            a,
            obstacles,
            n - 1,
            widths(obstacles),
        )
    }
}

/// Packs the blocks in four orders and, where nothing is in the way, in four widths; gives the ways
/// that came out.
pub fn pack_trials(geos: &Vec<Geo>, a: &Area, obstacles: &Vec<BBox>) -> (r: Vec<Trial>)
    requires
        a.ok(),
        pack::near_boxes(obstacles@),
        blocks_near(pack::geos_v(geos@)),
    ensures
        trials_v(r@) == all_trials(pack::geos_v(geos@), *a, obstacles@, 4),
        forall|i: int| 0 <= i < r@.len() ==> (#[trigger] r@[i]).packed.tame(),
{
    let ghost gv = pack::geos_v(geos@);
    let n: usize = if obstacles.len() == 0 { 4 } else { 1 };
    let mut r: Vec<Trial> = Vec::new();
    let mut k: usize = 0;
    assert(trials_v(r@) =~= Seq::empty());
    while k < 4
        invariant
            k <= 4,
            n == widths(obstacles@),
            a.ok(),
            pack::near_boxes(obstacles@),
            gv == pack::geos_v(geos@),
            blocks_near(gv),
            forall|i: int| 0 <= i < r@.len() ==> (#[trigger] r@[i]).packed.tame(),
            trials_v(r@) == all_trials(gv, *a, obstacles@, k as int),
        decreases 4 - k,
    {
        let o = order_blocks(geos, k);
        let ghost b = trials_v(r@);
        let mut w: usize = 0;
        assert(trials_v(r@) =~= b + order_trials(gv, *a, obstacles@, k as int, 0));
        while w < n
            invariant
                w <= n,
                n == widths(obstacles@),
                a.ok(),
                pack::near_boxes(obstacles@),
                gv == pack::geos_v(geos@),
                blocks_near(gv),
                o@ == order_of(gv, k as int),
                forall|i: int| 0 <= i < o@.len() ==> #[trigger] o@[i] < geos@.len(),
                forall|i: int| 0 <= i < r@.len() ==> (#[trigger] r@[i]).packed.tame(),
                trials_v(r@) == b + order_trials(gv, *a, obstacles@, k as int, w as int),
            decreases n - w,
        {
            let area = narrow(a, w);
            let ghost c = trials_v(r@);
            assert(pack::can_pack(gv, o@, area, obstacles@));
            if let Some(p) = pack_blocks_ordered(geos, &o, &area, obstacles) {
                let t = Trial { order: k, width: w, packed: p };
                let ghost tv = t@;
                r.push(t);
                assert(trials_v(r@) =~= c.push(tv));
            }
            assert(trials_v(r@) =~= b + order_trials(
                gv,
                *a,
                obstacles@,
                k as int,
                w + 1,
            ));
            w += 1;
        }
        k += 1;
    }
    r
}

/// The first of the first `n` scores that no other is below.
pub open spec fn least(v: Seq<i64>, n: int) -> int
    decreases n,
{
    if n <= 1 {
        0
    } else {
        let b = least(v, n - 1);
        if v[n - 1] < v[b] {
            n - 1
        } else {
            b
        }
    }
}

/// The trial with the least score, the first of equals.
pub fn best_trial(scores: &Vec<i64>) -> (r: Option<usize>)
    ensures
        match r {
            Some(i) => scores@.len() > 0 && i == least(scores@, scores@.len() as int),
            None => scores@.len() == 0,
        },
        r is Some ==> r->0 < scores@.len(),
{
    if scores.len() == 0 {
        return None;
    }
    let mut b: usize = 0;
    let mut i: usize = 1;
    while i < scores.len()
        invariant
            1 <= i <= scores@.len(),
            b < i,
            b == least(scores@, i as int),
        decreases scores@.len() - i,
    {
        if scores[i] < scores[b] {
            b = i;
        }
        i += 1;
    }
    Some(b)
}

// ---------------------------------------------------------------- spreading
/// A block where a packing puts it.
pub open spec fn put(g: GeoV, moves: Seq<Move>, i: int, n: int) -> GeoV
    decreases n,
{
    if n <= 0 {
        g
    } else if moves[n - 1].block == i {
        g.shifted(moves[n - 1].dx as int, moves[n - 1].dy as int)
    } else {
        put(g, moves, i, n - 1)
    }
}

pub open spec fn put_all(geos: Seq<GeoV>, moves: Seq<Move>) -> Seq<GeoV> {
    Seq::new(geos.len(), |i: int| put(geos[i], moves, i, moves.len() as int))
}

/// A factor as a fraction.
#[derive(Debug, Clone, Copy)]
pub struct Ratio {
    pub num: i128,
    pub den: i128,
}

impl Ratio {
    pub open spec fn ok(&self) -> bool {
        0 < self.den <= 0x10_0000_0000_0000 && -0x10_0000_0000_0000 <= self.num
            <= 0x10_0000_0000_0000
    }

    pub open spec fn sound(&self) -> bool {
        0 < self.den <= 0x40_0000_0000_0000 && -0x40_0000_0000_0000 <= self.num
            <= 0x40_0000_0000_0000
    }
}

pub open spec fn one() -> Ratio {
    Ratio { num: 1, den: 1 }
}

/// How far a side can be stretched: to four fifths of the room, at most by the cap.
pub open spec fn stretch(room: int, size: int, few: bool) -> Ratio {
    let n = 4 * room;
    let d = 5 * geom::hi(GRID as int, size);
    let (cn, cd) = if few {
        (27int, 20int)
    } else {
        (17int, 10int)
    };
    if cn * d <= n * cd {
        Ratio { num: cn as i128, den: cd as i128 }
    } else {
        Ratio { num: n as i128, den: d as i128 }
    }
}

pub open spec fn midway(k: Ratio) -> Ratio {
    Ratio { num: (k.num + k.den) as i128, den: (2 * k.den) as i128 }
}

pub open spec fn not_less(k: Ratio) -> Ratio {
    if k.num < k.den {
        one()
    } else {
        k
    }
}

/// The four ways to stretch, in the order they are tried.
pub open spec fn way(kx: Ratio, ky: Ratio, i: int) -> (Ratio, Ratio) {
    if i == 0 {
        (not_less(kx), not_less(ky))
    } else if i == 1 {
        (not_less(kx), one())
    } else if i == 2 {
        (one(), not_less(ky))
    } else {
        (not_less(midway(kx)), not_less(midway(ky)))
    }
}

/// Whether a factor is too small to bother: below 1.02.
pub open spec fn slight(k: Ratio) -> bool {
    50 * k.num < 51 * k.den
}

/// How far a block at a distance moves, on the double grid.
pub open spec fn stretched(v: int, k: Ratio) -> int {
    orient::cut(
        geom::round_div(orient::cut(v) * (k.num - k.den), k.den * (2 * GRID)) * (2 * GRID),
    ) as int
}

/// The sheet of the first `n` blocks, stretched from a corner.
pub open spec fn spread_of(
    blocks: Seq<GeoV>,
    x0: int,
    y0: int,
    k: (Ratio, Ratio),
    n: int,
) -> GeoV
    decreases n,
{
    if n <= 0 {
        GeoV::empty()
    } else {
        let b = geo::hull(blocks[n - 1].boxes);
        spread_of(blocks, x0, y0, k, n - 1).merged(
            blocks[n - 1].shifted(
                stretched(b.x0 - x0, k.0),
                stretched(b.y0 - y0, k.1),
            ),
        )
    }
}

/// Whether a box stays on the sheet, clear of the title block.
pub open spec fn box_clear(b: BBox, a: Area) -> bool {
    !(b.x1 > a.tbx - 4 * GRID && b.y1 > a.tby - 4 * GRID) && b.x1 <= a.xmax && b.y1 <= a.ymax
}

pub open spec fn all_clear(v: Seq<BBox>, a: Area, dx: int, dy: int) -> bool {
    forall|i: int| 0 <= i < v.len() ==> box_clear(geo::shift_box(#[trigger] v[i], dx, dy), a)
}

/// The first spread from way `i` on that is worth it and fits; else the sheet as it is.
pub open spec fn spread_from(
    sheet: GeoV,
    blocks: Seq<GeoV>,
    a: Area,
    x0: int,
    y0: int,
    kx: Ratio,
    ky: Ratio,
    i: int,
) -> GeoV
    decreases 4 - i,
{
    if i < 0 || i >= 4 {
        sheet
    } else {
        let k = way(kx, ky, i);
        let s = spread_of(blocks, x0, y0, k, blocks.len() as int);
        if !(slight(k.0) && slight(k.1)) && all_clear(s.boxes, a, 0, 0) {
            s
        } else {
            spread_from(sheet, blocks, a, x0, y0, kx, ky, i + 1)
        }
    }
}

/// The boxes of the blocks.
pub open spec fn hulls(blocks: Seq<GeoV>) -> Seq<BBox> {
    Seq::new(blocks.len(), |i: int| geo::hull(blocks[i].boxes))
}

/// The sheet spread out to use more of its room; one block stays as it is.
pub open spec fn spread(sheet: GeoV, blocks: Seq<GeoV>, a: Area) -> GeoV {
    if blocks.len() <= 1 {
        sheet
    } else {
        let b = geo::hull(hulls(blocks));
        let few = blocks.len() <= 3;
        spread_from(
            sheet,
            blocks,
            a,
            b.x0 as int,
            b.y0 as int,
            stretch(a.xmax - a.x0, b.x1 - b.x0, few),
            stretch(a.ymax - a.y0, b.y1 - b.y0, few),
            0,
        )
    }
}

// ---------------------------------------------------------------- centring
/// The shares of the free room that are tried, in quarters.
pub open spec fn quarter(i: int) -> (int, int) {
    if i == 0 {
        (2, 2)
    } else if i == 1 {
        (2, 0)
    } else if i == 2 {
        (0, 2)
    } else if i == 3 {
        (1, 1)
    } else {
        (0, 0)
    }
}

/// How far to move for a share of the free room, on the double grid.
pub open spec fn share_of(free: int, q: int) -> int {
    geom::round_div(free * q, 8 * GRID) * (2 * GRID)
}

/// The sheet moved by the first share from `i` on that fits; else as it is.
pub open spec fn centred_from(g: GeoV, a: Area, i: int) -> GeoV
    decreases 5 - i,
{
    if i < 0 || i >= 5 {
        g
    } else {
        let b = geo::hull(g.boxes);
        let dx = share_of(a.xmax - a.x0 - (b.x1 - b.x0), quarter(i).0);
        let dy = share_of(a.ymax - a.y0 - (b.y1 - b.y0), quarter(i).1);
        if dx >= 0 && dy >= 0 && all_clear(g.boxes, a, dx, dy) {
            g.shifted(dx, dy)
        } else {
            centred_from(g, a, i + 1)
        }
    }
}

/// The sheet that a trial makes: spread out where that is wanted and nothing is in the way, then
/// centred where nothing is in the way.
pub open spec fn arranged(
    geos: Seq<GeoV>,
    t: TrialV,
    a: Area,
    free: bool,
    spread_ok: bool,
) -> GeoV {
    let s = if free && spread_ok {
        spread(t.sheet, put_all(geos, t.moves), a)
    } else {
        t.sheet
    };
    if free {
        centred_from(s, a, 0)
    } else {
        s
    }
}

/// The integer nearest to a quotient, a tie to the even one.
fn round_wide(p: i128, u: i128) -> (r: i128)
    requires
        -0x10_0000_0000_0000_0000_0000_0000 <= p <= 0x10_0000_0000_0000_0000_0000_0000,
        0 < u <= 0x10_0000_0000_0000_0000_0000_0000,
    ensures
        r == geom::round_div(p as int, u as int),
        p - u <= r * u <= p + u,
{
    let q: i128 = if p >= 0 {
        p / u
    } else {
        let m: i128 = -1 - p;
        let d: i128 = m / u;
        proof {
            vstd::arithmetic::div_mod::lemma_fundamental_div_mod(m as int, u as int);
            vstd::arithmetic::div_mod::lemma_mod_bound(m as int, u as int);
            let t = m as int % u as int;
            assert(p == (-1 - d) * u + (u - 1 - t)) by (nonlinear_arith)
                requires
                    m == u * d + t,
                    p == -1 - m,
            ;
            vstd::arithmetic::div_mod::lemma_fundamental_div_mod_converse(
                p as int,
                u as int,
                -1 - d,
                u - 1 - t,
            );
            assert(0 <= d <= m) by (nonlinear_arith)
                requires
                    m == u * d + t,
                    0 <= t < u,
                    m >= 0,
                    u > 0,
            ;
        }
        -1 - d
    };
    proof {
        vstd::arithmetic::div_mod::lemma_fundamental_div_mod(p as int, u as int);
        vstd::arithmetic::div_mod::lemma_mod_bound(p as int, u as int);
        vstd::arithmetic::mul::lemma_mul_is_commutative(u as int, q as int);
        if p >= 0 {
            assert(0 <= q <= p) by (nonlinear_arith)
                requires
                    q == p as int / u as int,
                    p >= 0,
                    u > 0,
            ;
        }
        assert((q + 1) * u == q * u + u) by (nonlinear_arith);
    }
    let m: i128 = p - q * u;
    let odd = q % 2 != 0;
    assert(odd == (q as int % 2 != 0));
    if 2 * m > u || (2 * m == u && odd) {
        q + 1
    } else {
        q
    }
}

fn put_block(g: &Geo, moves: &Vec<Move>, i: usize) -> (r: Geo)
    requires
        g@.within(0x80_0000_0000),
        forall|k: int| 0 <= k < moves@.len() ==> pack::small_move(#[trigger] moves@[k]),
    ensures
        r@ == put(g@, moves@, i as int, moves@.len() as int),
        r@.within(0x280_0000_0000),
{
    let mut r = g.dup();
    let mut n: usize = moves.len();
    proof {
        pack::lemma_within_wider(g@, 0x80_0000_0000, 0x280_0000_0000);
        pack::lemma_within_wider(g@, 0x80_0000_0000, 0x800_0000_0000_0000);
    }
    while n > 0
        invariant
            n <= moves@.len(),
            r@ == g@,
            g@.within(0x80_0000_0000),
            g@.within(0x280_0000_0000),
            g@.within(0x800_0000_0000_0000),
            forall|k: int| 0 <= k < moves@.len() ==> pack::small_move(#[trigger] moves@[k]),
            put(g@, moves@, i as int, moves@.len() as int) == put(
                g@,
                moves@,
                i as int,
                n as int,
            ),
        decreases n,
    {
        let m = moves[n - 1];
        assert(pack::small_move(moves@[n - 1]));
        if m.block == i {
            proof {
                pack::lemma_within_shift(
                    g@,
                    0x80_0000_0000,
                    0x200_0000_0000,
                    m.dx as int,
                    m.dy as int,
                );
            }
            r.translate(m.dx, m.dy);
            return r;
        }
        n -= 1;
    }
    r
}

fn put_blocks(geos: &Vec<Geo>, moves: &Vec<Move>) -> (r: Vec<Geo>)
    requires
        blocks_near(pack::geos_v(geos@)),
        forall|k: int| 0 <= k < moves@.len() ==> pack::small_move(#[trigger] moves@[k]),
    ensures
        pack::geos_v(r@) == put_all(pack::geos_v(geos@), moves@),
        forall|i: int| 0 <= i < r@.len() ==> (#[trigger] r@[i])@.within(0x280_0000_0000),
{
    let ghost gv = pack::geos_v(geos@);
    let ghost want = put_all(gv, moves@);
    let mut r: Vec<Geo> = Vec::new();
    let mut i: usize = 0;
    while i < geos.len()
        invariant
            i <= geos@.len(),
            gv == pack::geos_v(geos@),
            want == put_all(gv, moves@),
            blocks_near(gv),
            forall|k: int| 0 <= k < moves@.len() ==> pack::small_move(#[trigger] moves@[k]),
            r@.len() == i,
            forall|k: int|
                0 <= k < i ==> (#[trigger] r@[k])@ == want[k] && r@[k]@.within(0x280_0000_0000),
        decreases geos@.len() - i,
    {
        assert(gv[i as int] == geos@[i as int]@);
        assert(gv[i as int].within(0x80_0000_0000));
        r.push(put_block(&geos[i], moves, i));
        i += 1;
    }
    assert(pack::geos_v(r@) =~= want);
    r
}

fn find_stretch(room: i64, size: i64, few: bool) -> (r: Ratio)
    requires
        -0x100_0000_0000 <= room <= 0x100_0000_0000,
        -0x800_0000_0000 <= size <= 0x800_0000_0000,
    ensures
        r == stretch(room as int, size as int, few),
        r.ok(),
{
    let n: i128 = 4 * room as i128;
    let d: i128 = 5 * max_i(GRID, size) as i128;
    let (cn, cd): (i128, i128) = if few { (27, 20) } else { (17, 10) };
    if cn * d <= n * cd {
        Ratio { num: cn, den: cd }
    } else {
        Ratio { num: n, den: d }
    }
}

fn at_least_one(k: Ratio) -> (r: Ratio)
    ensures
        r == not_less(k),
        k.ok() ==> r.ok(),
{
    if k.num < k.den {
        Ratio { num: 1, den: 1 }
    } else {
        k
    }
}

fn find_way(kx: Ratio, ky: Ratio, i: usize) -> (r: (Ratio, Ratio))
    requires
        kx.ok(),
        ky.ok(),
    ensures
        r == way(kx, ky, i as int),
        r.0.sound(),
        r.1.sound(),
{
    let one = Ratio { num: 1, den: 1 };
    if i == 0 {
        (at_least_one(kx), at_least_one(ky))
    } else if i == 1 {
        (at_least_one(kx), one)
    } else if i == 2 {
        (one, at_least_one(ky))
    } else {
        let mx = Ratio { num: kx.num + kx.den, den: 2 * kx.den };
        let my = Ratio { num: ky.num + ky.den, den: 2 * ky.den };
        (at_least_one(mx), at_least_one(my))
    }
}

fn stretch_by(v: i64, k: Ratio) -> (r: i64)
    requires
        k.sound(),
    ensures
        r == stretched(v as int, k),
        orient::fits(r as int),
{
    let c: i128 = orient::cut_off(v) as i128;
    let e: i128 = k.num - k.den;
    assert(-0x1_0000_0000_0000_0000_0000_0000 <= c * e <= 0x1_0000_0000_0000_0000_0000_0000)
        by (nonlinear_arith)
        requires
            -0x80_0000_0000 <= c <= 0x80_0000_0000,
            -0x80_0000_0000_0000 <= e <= 0x80_0000_0000_0000,
    ;
    let u: i128 = k.den * 254_000;
    let p: i128 = c * e;
    let q: i128 = round_wide(p, u);
    assert(-0x4_0000_0000_0000_0000_0000_0000 <= q <= 0x4_0000_0000_0000_0000_0000_0000)
        by (nonlinear_arith)
        requires
            p - u <= q * u <= p + u,
            -0x1_0000_0000_0000_0000_0000_0000 <= p <= 0x1_0000_0000_0000_0000_0000_0000,
            1 <= u <= 0x1_0000_0000_0000_0000_0000_0000,
    ;
    cut_wide(q * 254_000)
}

fn find_spread(blocks: &Vec<Geo>, x0: i64, y0: i64, k: (Ratio, Ratio)) -> (r: Geo)
    requires
        forall|i: int| 0 <= i < blocks@.len() ==> (#[trigger] blocks@[i])@.within(0x280_0000_0000),
        k.0.sound(),
        k.1.sound(),
        geo::reach(x0 as int, 0x280_0000_0000),
        geo::reach(y0 as int, 0x280_0000_0000),
    ensures
        r@ == spread_of(
            pack::geos_v(blocks@),
            x0 as int,
            y0 as int,
            k,
            blocks@.len() as int,
        ),
        r@.within(0x300_0000_0000),
{
    let ghost bv = pack::geos_v(blocks@);
    let mut r = Geo::new();
    let mut i: usize = 0;
    while i < blocks.len()
        invariant
            i <= blocks@.len(),
            bv == pack::geos_v(blocks@),
            forall|j: int|
                0 <= j < blocks@.len() ==> (#[trigger] blocks@[j])@.within(0x280_0000_0000),
            k.0.sound(),
            k.1.sound(),
            geo::reach(x0 as int, 0x280_0000_0000),
            geo::reach(y0 as int, 0x280_0000_0000),
            r@ == spread_of(bv, x0 as int, y0 as int, k, i as int),
            r@.within(0x300_0000_0000),
        decreases blocks@.len() - i,
    {
        let b = blocks[i].bbox();
        assert(bv[i as int] == blocks@[i as int]@);
        assert(bv[i as int].within(0x280_0000_0000));
        let dx = stretch_by(b.x0 - x0, k.0);
        let dy = stretch_by(b.y0 - y0, k.1);
        let mut g = blocks[i].dup();
        let ghost r0 = r@;
        proof {
            pack::lemma_within_wider(bv[i as int], 0x280_0000_0000, 0x800_0000_0000_0000);
            pack::lemma_within_shift(
                bv[i as int],
                0x280_0000_0000,
                0x80_0000_0000,
                dx as int,
                dy as int,
            );
        }
        g.translate(dx, dy);
        r.merge(&g);
        proof {
            pack::lemma_within_merged(r0, g@, 0x300_0000_0000);
        }
        i += 1;
    }
    r
}

fn is_clear(v: &Vec<BBox>, a: &Area, dx: i64, dy: i64) -> (r: bool)
    requires
        a.ok(),
        geo::reach(dx as int, 0x100_0000_0000_0000),
        geo::reach(dy as int, 0x100_0000_0000_0000),
        forall|i: int| 0 <= i < v@.len() ==> geo::reach_box(#[trigger] v@[i], 0x300_0000_0000),
    ensures
        r == all_clear(v@, *a, dx as int, dy as int),
{
    let mut i: usize = 0;
    while i < v.len()
        invariant
            i <= v@.len(),
            a.ok(),
            geo::reach(dx as int, 0x100_0000_0000_0000),
            geo::reach(dy as int, 0x100_0000_0000_0000),
            forall|k: int| 0 <= k < v@.len() ==> geo::reach_box(#[trigger] v@[k], 0x300_0000_0000),
            forall|k: int|
                0 <= k < i ==> box_clear(
                    geo::shift_box(#[trigger] v@[k], dx as int, dy as int),
                    *a,
                ),
        decreases v@.len() - i,
    {
        assert(geo::reach_box(v@[i as int], 0x300_0000_0000));
        let (x1, y1) = (v[i].x1 + dx, v[i].y1 + dy);
        let ghost b = geo::shift_box(v@[i as int], dx as int, dy as int);
        assert(b.x1 == x1 && b.y1 == y1);
        if (x1 > a.tbx - 4 * GRID && y1 > a.tby - 4 * GRID) || x1 > a.xmax || y1 > a.ymax {
            assert(!box_clear(b, *a));
            return false;
        }
        i += 1;
    }
    true
}

fn hull_of_blocks(blocks: &Vec<Geo>) -> (r: BBox)
    requires
        blocks@.len() > 0,
        forall|i: int| 0 <= i < blocks@.len() ==> (#[trigger] blocks@[i])@.within(0x280_0000_0000),
    ensures
        r == geo::hull(hulls(pack::geos_v(blocks@))),
        geo::reach_box(r, 0x280_0000_0000),
{
    let ghost bv = pack::geos_v(blocks@);
    let mut v: Vec<BBox> = Vec::new();
    let mut i: usize = 0;
    while i < blocks.len()
        invariant
            i <= blocks@.len(),
            bv == pack::geos_v(blocks@),
            forall|j: int|
                0 <= j < blocks@.len() ==> (#[trigger] blocks@[j])@.within(0x280_0000_0000),
            v@.len() == i,
            forall|k: int|
                0 <= k < i ==> #[trigger] v@[k] == geo::hull(bv[k].boxes) && geo::reach_box(
                    v@[k],
                    0x280_0000_0000,
                ),
        decreases blocks@.len() - i,
    {
        assert(bv[i as int] == blocks@[i as int]@);
        v.push(blocks[i].bbox());
        i += 1;
    }
    assert(v@ =~= hulls(bv));
    proof {
        geo::lemma_hull_reach(v@, 0x280_0000_0000);
    }
    let mut g = Geo::new();
    g.boxes = v;
    assert(g@.boxes == hulls(bv));
    g.bbox()
}

fn spread_out(sheet: Geo, blocks: &Vec<Geo>, a: &Area) -> (r: Geo)
    requires
        a.ok(),
        sheet@.within(0x280_0000_0000),
        forall|i: int| 0 <= i < blocks@.len() ==> (#[trigger] blocks@[i])@.within(0x280_0000_0000),
    ensures
        r@ == spread(sheet@, pack::geos_v(blocks@), *a),
        r@.within(0x300_0000_0000),
{
    let ghost bv = pack::geos_v(blocks@);
    proof {
        pack::lemma_within_wider(sheet@, 0x280_0000_0000, 0x300_0000_0000);
    }
    assert(bv.len() == blocks@.len());
    if blocks.len() <= 1 {
        return sheet;
    }
    let b = hull_of_blocks(blocks);
    let few = blocks.len() <= 3;
    let kx = find_stretch(a.xmax - a.x0, b.x1 - b.x0, few);
    let ky = find_stretch(a.ymax - a.y0, b.y1 - b.y0, few);
    let mut i: usize = 0;
    while i < 4
        invariant
            i <= 4,
            a.ok(),
            kx.ok(),
            ky.ok(),
            bv == pack::geos_v(blocks@),
            geo::reach_box(b, 0x280_0000_0000),
            sheet@.within(0x300_0000_0000),
            forall|j: int|
                0 <= j < blocks@.len() ==> (#[trigger] blocks@[j])@.within(0x280_0000_0000),
            spread(sheet@, bv, *a) == spread_from(
                sheet@,
                bv,
                *a,
                b.x0 as int,
                b.y0 as int,
                kx,
                ky,
                i as int,
            ),
        decreases 4 - i,
    {
        let k = find_way(kx, ky, i);
        let slight_x = 50 * k.0.num < 51 * k.0.den;
        let slight_y = 50 * k.1.num < 51 * k.1.den;
        if !(slight_x && slight_y) {
            let s = find_spread(blocks, b.x0, b.y0, k);
            assert(bv.len() == blocks@.len());
            if is_clear(&s.boxes, a, 0, 0) {
                return s;
            }
        }
        i += 1;
    }
    sheet
}

fn share_for(free: i64, q: i64) -> (r: i64)
    requires
        -0x1000_0000_0000 <= free <= 0x1000_0000_0000,
        0 <= q <= 2,
    ensures
        r == share_of(free as int, q as int),
        geo::reach(r as int, 0x100_0000_0000_0000),
{
    let p: i128 = if q == 0 {
        0
    } else if q == 1 {
        free as i128
    } else {
        2 * free as i128
    };
    assert(p == free * q) by (nonlinear_arith)
        requires
            0 <= q <= 2,
            q == 0 ==> p == 0,
            q == 1 ==> p == free,
            q == 2 ==> p == 2 * free,
    ;
    let k = round_wide(p, 1_016_000);
    (k * 254_000) as i64
}

fn centre(g: &Geo, a: &Area) -> (r: Geo)
    requires
        a.ok(),
        g@.within(0x300_0000_0000),
    ensures
        r@ == centred_from(g@, *a, 0),
{
    let ghost g0 = g@;
    let b = g.bbox();
    let mut i: usize = 0;
    proof {
        pack::lemma_within_wider(g0, 0x300_0000_0000, 0x800_0000_0000_0000);
    }
    while i < 5
        invariant
            i <= 5,
            a.ok(),
            g0 == g@,
            g0.within(0x300_0000_0000),
            g0.within(0x800_0000_0000_0000),
            b == geo::hull(g0.boxes),
            geo::reach_box(b, 0x300_0000_0000),
            centred_from(g0, *a, 0) == centred_from(g0, *a, i as int),
        decreases 5 - i,
    {
        let (qx, qy): (i64, i64) = if i == 0 {
            (2, 2)
        } else if i == 1 {
            (2, 0)
        } else if i == 2 {
            (0, 2)
        } else if i == 3 {
            (1, 1)
        } else {
            (0, 0)
        };
        let dx = share_for(a.xmax - a.x0 - (b.x1 - b.x0), qx);
        let dy = share_for(a.ymax - a.y0 - (b.y1 - b.y0), qy);
        if dx >= 0 && dy >= 0 && is_clear(&g.boxes, a, dx, dy) {
            let mut moved = g.dup();
            moved.translate(dx, dy);
            return moved;
        }
        i += 1;
    }
    g.dup()
}

/// The sheet that a trial makes: spread out where that is wanted and nothing is in the way, then
/// centred where nothing is in the way.
pub fn arrange(geos: &Vec<Geo>, t: Trial, a: &Area, free: bool, spread_ok: bool) -> (r: Geo)
    requires
        a.ok(),
        blocks_near(pack::geos_v(geos@)),
        t.packed.tame(),
    ensures
        r@ == arranged(pack::geos_v(geos@), t@, *a, free, spread_ok),
{
    let blocks = put_blocks(geos, &t.packed.moves);
    proof {
        pack::lemma_within_wider(t.packed.sheet@, 0x280_0000_0000, 0x300_0000_0000);
    }
    let Packed { moves: _, sheet } = t.packed;
    let s = if free && spread_ok {
        spread_out(sheet, &blocks, a)
    } else {
        sheet
    };
    if free {
        centre(&s, a)
    } else {
        s
    }
}

// ---------------------------------------------------------------- papers
pub open spec fn area_of(g: GeoV) -> int {
    let b = geo::hull(g.boxes);
    (b.x1 - b.x0) * (b.y1 - b.y0)
}

pub open spec fn areas(geos: Seq<GeoV>, n: int) -> int
    decreases n,
{
    if n <= 0 {
        0
    } else {
        areas(geos, n - 1) + area_of(geos[n - 1])
    }
}

/// The papers to try for a wanted one: it first, then the usual ones; a small design on A4 is tried
/// on A5 before.
pub open spec fn papers(want: Seq<char>, small: bool) -> Seq<Seq<char>> {
    let own = seq![want];
    let a4 = if want == "A4"@ {
        Seq::<Seq<char>>::empty()
    } else {
        seq!["A4"@]
    };
    let a3 = if want == "A3"@ {
        Seq::<Seq<char>>::empty()
    } else {
        seq!["A3"@]
    };
    let a2 = if want == "A2"@ {
        Seq::<Seq<char>>::empty()
    } else {
        seq!["A2"@]
    };
    let first = if want == "A4"@ && small {
        seq!["A5"@]
    } else {
        Seq::<Seq<char>>::empty()
    };
    first + own + a4 + a3 + a2
}

/// The papers to try for a wanted one, in order.
pub fn papers_to_try(want: &str, small: bool) -> (r: Vec<String>)
    ensures
        text::views(r@) == papers(want@, small),
{
    let mut r: Vec<String> = Vec::new();
    let a4 = same(want, "A4");
    if a4 && small {
        r.push("A5".to_owned());
    }
    r.push(want.to_owned());
    if !a4 {
        r.push("A4".to_owned());
    }
    if !same(want, "A3") {
        r.push("A3".to_owned());
    }
    if !same(want, "A2") {
        r.push("A2".to_owned());
    }
    assert(text::views(r@) =~= papers(want@, small));
    r
}

/// What is said of the paper that was taken.
pub open spec fn paper_note(want: Seq<char>, used: Seq<char>) -> Option<Seq<char>> {
    if used == want {
        None
    } else if used != "A5"@ {
        Some("note: content did not fit on "@ + want + "; paper changed to "@ + used)
    } else {
        Some("note: small design: paper set to A5"@)
    }
}

/// What is said of the paper that was taken.
pub fn note_of_paper(want: &str, used: &str) -> (r: Option<String>)
    ensures
        match r {
            Some(n) => paper_note(want@, used@) == Some(n@),
            None => paper_note(want@, used@) is None,
        },
{
    if same(used, want) {
        None
    } else if !same(used, "A5") {
        Some(
            Line::of("note: content did not fit on ").add(want).add("; paper changed to ").add(
                used,
            ).done(),
        )
    } else {
        Some("note: small design: paper set to A5".to_owned())
    }
}

/// The papers that an addition to a sheet is tried on: its own, then those as wide or wider.
pub open spec fn larger_papers(own: Seq<char>, base: int, names: Seq<Seq<char>>, n: int) -> Seq<
    Seq<char>,
>
    decreases n,
{
    if n <= 0 {
        seq![own]
    } else {
        let rest = larger_papers(own, base, names, n - 1);
        let p = geo::paper_spec(names[n - 1]);
        if names[n - 1] != own && p is Some && p->0.xmax >= base {
            rest.push(names[n - 1])
        } else {
            rest
        }
    }
}

pub open spec fn base_width(own: Seq<char>) -> int {
    match geo::paper_spec(own) {
        Some(p) => p.xmax as int,
        None => geo::paper_spec("A4"@)->0.xmax as int,
    }
}

/// The papers that an addition to a sheet is tried on: its own, then those as wide or wider.
pub fn papers_to_enlarge(own: &str) -> (r: Vec<String>)
    ensures
        text::views(r@) == larger_papers(own@, base_width(own@), seq!["A4"@, "A3"@, "A2"@], 3),
{
    let mut r: Vec<String> = Vec::new();
    let ghost names = seq!["A4"@, "A3"@, "A2"@];
    r.push(own.to_owned());
    assert(text::views(r@) =~= seq![own@]);
    let base: i64 = match geo::paper(own) {
        Some(p) => p.xmax,
        None => 226 * GRID,
    };
    let mut i: usize = 0;
    proof {
        reveal_strlit("A4");
        reveal_strlit("A5");
        reveal_strlit("A3");
        reveal_strlit("A2");
        assert("A4"@[1] != "A5"@[1]);
    }
    while i < 3
        invariant
            i <= 3,
            names == seq!["A4"@, "A3"@, "A2"@],
            base == base_width(own@),
            text::views(r@) == larger_papers(own@, base as int, names, i as int),
        decreases 3 - i,
    {
        let name = if i == 0 {
            "A4"
        } else if i == 1 {
            "A3"
        } else {
            "A2"
        };
        assert(name@ == names[i as int]);
        if !same(name, own) {
            if let Some(p) = geo::paper(name) {
                if p.xmax >= base {
                    let ghost r0 = text::views(r@);
                    r.push(name.to_owned());
                    assert(text::views(r@) =~= r0.push(name@));
                }
            }
        }
        i += 1;
    }
    r
}

/// What is said when the paper of a sheet was enlarged.
pub open spec fn enlarged_note(own: Seq<char>, used: Seq<char>) -> Seq<char> {
    "note: no free space on "@ + own + "; paper enlarged to "@ + used
        + " (existing content kept in place)"@
}

/// What is said when the paper of a sheet was enlarged.
pub fn note_of_enlarging(own: &str, used: &str) -> (r: String)
    ensures
        r@ == enlarged_note(own@, used@),
{
    Line::of("note: no free space on ").add(own).add("; paper enlarged to ").add(used).add(
        " (existing content kept in place)",
    ).done()
}

} // verus!
