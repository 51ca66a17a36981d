//! Packing: the blocks of a sheet side by side, clear of its title block and of what is there.
use crate::flex::cut_wide;
use crate::geo;
use crate::geo::{rects_overlap, snap_even, Geo, GeoV, BLOCK_GAP_X, BLOCK_GAP_Y};
use crate::geom;
use crate::geom::{BBox, Pt, GRID};
use crate::orient;
use crate::orient::cut_off;
use vstd::prelude::*;

verus! {

/// Where blocks may stand: from a corner to the far edges, outside the title block.
#[derive(Debug, Clone, Copy)]
pub struct Area {
    pub x0: i64,
    pub y0: i64,
    pub xmax: i64,
    pub ymax: i64,
    pub tbx: i64,
    pub tby: i64,
}

impl Area {
    pub open spec fn ok(&self) -> bool {
        orient::fits(self.x0 as int) && orient::fits(self.y0 as int) && orient::fits(
            self.xmax as int,
        ) && orient::fits(self.ymax as int) && orient::fits(self.tbx as int) && orient::fits(
            self.tby as int,
        )
    }
}

/// Half a grid step.
pub const HALF_STEP: i64 = 63_500;

/// The room that a block keeps clear: its box with the gaps around it, less half a step.
pub open spec fn kept_clear(b: BBox) -> BBox {
    BBox {
        x0: (b.x0 - BLOCK_GAP_X + HALF_STEP) as i64,
        y0: (b.y0 - BLOCK_GAP_Y + HALF_STEP) as i64,
        x1: (b.x1 + BLOCK_GAP_X - HALF_STEP) as i64,
        y1: (b.y1 + BLOCK_GAP_Y - HALF_STEP) as i64,
    }
}

/// The title block with its margin, open to the far corner.
pub open spec fn title_room(a: Area) -> BBox {
    BBox {
        x0: (a.tbx - 4 * GRID) as i64,
        y0: (a.tby - 4 * GRID) as i64,
        x1: (a.xmax + 100 * GRID) as i64,
        y1: (a.ymax + 100 * GRID) as i64,
    }
}

pub open spec fn none_overlap(r: BBox, v: Seq<BBox>) -> bool {
    forall|i: int| 0 <= i < v.len() ==> !geom::overlap_spec(r, #[trigger] v[i], 0)
}

/// The move of double steps for a distance: the nearest one, or the next one up.
pub open spec fn stepped(v: int, up: bool) -> int {
    let near = geo::snap_even_spec(v);
    if up && near < v {
        near + 254_000
    } else {
        near
    }
}

/// The box of a block after it was moved towards a corner.
pub open spec fn box_towards(b: BBox, c: Pt, up: bool) -> BBox {
    geo::shift_box(b, stepped(c.x - b.x0, up), stepped(c.y - b.y0, up))
}

/// Whether a box lies in the area, clear of the title block and of what is placed.
pub open spec fn fits_in(r: BBox, a: Area, placed: Seq<BBox>) -> bool {
    &&& a.x0 <= r.x0 && a.y0 <= r.y0 && r.x1 <= a.xmax && r.y1 <= a.ymax
    &&& none_overlap(r, placed)
    &&& !geom::overlap_spec(r, title_room(a), 0)
}

/// How a block can stand at a corner: moved by the nearest double steps, else by the next ones up.
pub open spec fn stands(c: Pt, b: BBox, a: Area, placed: Seq<BBox>) -> Option<bool> {
    if fits_in(box_towards(b, c, false), a, placed) {
        Some(false)
    } else if fits_in(box_towards(b, c, true), a, placed) {
        Some(true)
    } else {
        None
    }
}

/// A corner, and whether the block is moved there by the next steps up.
#[derive(Debug, Clone, Copy, PartialEq, Eq, Structural)]
pub struct Spot {
    pub at: Pt,
    pub up: bool,
}

/// Whether a corner is tried before another: the upper first, then the one further left.
pub open spec fn sooner(a: Pt, b: Pt) -> bool {
    a.y < b.y || (a.y == b.y && a.x < b.x)
}

pub open spec fn tried(best: Option<Spot>, c: Pt, b: BBox, a: Area, placed: Seq<BBox>) -> Option<Spot> {
    match stands(c, b, a, placed) {
        Some(up) => if best is None || sooner(c, best->0.at) {
            Some(Spot { at: c, up })
        } else {
            best
        },
        None => best,
    }
}

/// The corners that a box offers: to its right, below it, and at the edges beyond it.
pub open spec fn offered(r: BBox, a: Area, k: int) -> Pt {
    let right = orient::cut(r.x1 + BLOCK_GAP_X);
    let below = orient::cut(r.y1 + BLOCK_GAP_Y);
    if k == 0 {
        Pt { x: right, y: orient::cut(r.y0 as int) }
    } else if k == 1 {
        Pt { x: orient::cut(r.x0 as int), y: below }
    } else if k == 2 {
        Pt { x: right, y: a.y0 }
    } else {
        Pt { x: a.x0, y: below }
    }
}

/// The best corner among the area's own and those that the first `n` boxes offer.
pub open spec fn best_corner(
    corners: Seq<BBox>,
    b: BBox,
    a: Area,
    placed: Seq<BBox>,
    n: int,
) -> Option<Spot>
    decreases n,
{
    if n <= 0 {
        tried(None, Pt { x: a.x0, y: a.y0 }, b, a, placed)
    } else {
        let s = best_corner(corners, b, a, placed, n - 1);
        let r = corners[n - 1];
        let s0 = tried(s, offered(r, a, 0), b, a, placed);
        let s1 = tried(s0, offered(r, a, 1), b, a, placed);
        let s2 = tried(s1, offered(r, a, 2), b, a, placed);
        tried(s2, offered(r, a, 3), b, a, placed)
    }
}

/// A move of a block.
#[derive(Debug, Clone, Copy, PartialEq, Eq, Structural)]
pub struct Move {
    pub block: usize,
    pub dx: i64,
    pub dy: i64,
}

/// Blocks packed so far.
#[verifier::ext_equal]
pub struct PackV {
    pub placed: Seq<BBox>,
    pub corners: Seq<BBox>,
    pub moves: Seq<Move>,
    pub sheet: GeoV,
}

/// The packing with one block more; none where it fits nowhere.
pub open spec fn packed_one(s: PackV, g: GeoV, i: usize, a: Area) -> Option<PackV> {
    let b = geo::hull(g.boxes);
    match best_corner(s.corners, b, a, s.placed, s.corners.len() as int) {
        None => None,
        Some(Spot { at: c, up }) => {
            let (dx, dy) = (stepped(c.x - b.x0, up), stepped(c.y - b.y0, up));
            let moved = g.shifted(dx, dy);
            let nb = geo::hull(moved.boxes);
            Some(
                PackV {
                    placed: s.placed.push(kept_clear(nb)),
                    corners: s.corners.push(nb),
                    moves: s.moves.push(Move { block: i, dx: dx as i64, dy: dy as i64 }),
                    sheet: s.sheet.merged(moved),
                },
            )
        },
    }
}

pub open spec fn geos_v(v: Seq<Geo>) -> Seq<GeoV> {
    Seq::new(v.len(), |i: int| v[i]@)
}

/// The first `n` blocks of an order, packed.
pub open spec fn packed(
    geos: Seq<GeoV>,
    order: Seq<usize>,
    a: Area,
    obstacles: Seq<BBox>,
    n: int,
) -> Option<PackV>
    decreases n,
{
    if n <= 0 {
        Some(
            PackV {
                placed: Seq::new(obstacles.len(), |i: int| kept_clear(obstacles[i])),
                corners: obstacles,
                moves: Seq::empty(),
                sheet: GeoV::empty(),
            },
        )
    } else {
        match packed(geos, order, a, obstacles, n - 1) {
            None => None,
            Some(s) => packed_one(s, geos[order[n - 1] as int], order[n - 1], a),
        }
    }
}

/// How far out drawings and obstacles may reach.
pub open spec fn near_boxes(v: Seq<BBox>) -> bool {
    forall|i: int| 0 <= i < v.len() ==> near_box(#[trigger] v[i])
}

pub open spec fn near_box(b: BBox) -> bool {
    geo::reach_box(b, 0x400_0000_0000)
}

pub open spec fn can_pack(geos: Seq<GeoV>, order: Seq<usize>, a: Area, obstacles: Seq<BBox>) -> bool {
    &&& a.ok()
    &&& near_boxes(obstacles)
    &&& forall|i: int| 0 <= i < geos.len() ==> (#[trigger] geos[i]).within(0x80_0000_0000)
    &&& forall|i: int| 0 <= i < order.len() ==> #[trigger] order[i] < geos.len()
}

pub(crate) proof fn lemma_within_shift(g: GeoV, r: int, d: int, dx: int, dy: int)
    requires
        g.within(r),
        0 <= r,
        geo::reach(dx, d),
        geo::reach(dy, d),
        r + d <= 0x800_0000_0000_0000,
    ensures
        g.shifted(dx, dy).within(r + d),
{
    let s = g.shifted(dx, dy);
    assert forall|i: int| 0 <= i < s.parts.len() implies geo::reach_pt(
        (#[trigger] s.parts[i]).at,
        r + d,
    ) by {
        assert(geo::reach_pt(g.parts[i].at, r));
    }
    assert forall|i: int| 0 <= i < s.power.len() implies geo::reach_pt(
        (#[trigger] s.power[i]).at,
        r + d,
    ) by {
        assert(geo::reach_pt(g.power[i].at, r));
    }
    assert forall|i: int| 0 <= i < s.labels.len() implies geo::reach_pt(
        (#[trigger] s.labels[i]).at,
        r + d,
    ) by {
        assert(geo::reach_pt(g.labels[i].at, r));
    }
    assert forall|i: int| 0 <= i < s.texts.len() implies geo::reach_pt(
        (#[trigger] s.texts[i]).at,
        r + d,
    ) by {
        assert(geo::reach_pt(g.texts[i].at, r));
    }
    assert forall|i: int| 0 <= i < s.rects.len() implies geo::reach_box(
        #[trigger] s.rects[i],
        r + d,
    ) by {
        assert(geo::reach_box(g.rects[i], r));
    }
    assert forall|i: int| 0 <= i < s.boxes.len() implies geo::reach_box(
        #[trigger] s.boxes[i],
        r + d,
    ) by {
        assert(geo::reach_box(g.boxes[i], r));
    }
    assert forall|i: int| 0 <= i < s.wires.len() implies geo::reach_path(
        #[trigger] s.wires[i],
        r + d,
    ) by {
        assert(geo::reach_path(g.wires[i], r));
        assert forall|k: int| 0 <= k < s.wires[i].len() implies geo::reach_pt(
            #[trigger] s.wires[i][k],
            r + d,
        ) by {
            assert(geo::reach_pt(g.wires[i][k], r));
        }
    }
    assert forall|k: int| 0 <= k < s.nc.len() implies geo::reach_pt(#[trigger] s.nc[k], r + d) by {
        assert(geo::reach_pt(g.nc[k], r));
    }
}

fn clear_of(b: BBox) -> (r: BBox)
    requires
        near_box(b),
    ensures
        r == kept_clear(b),
{
    BBox {
        x0: b.x0 - BLOCK_GAP_X + HALF_STEP,
        y0: b.y0 - BLOCK_GAP_Y + HALF_STEP,
        x1: b.x1 + BLOCK_GAP_X - HALF_STEP,
        y1: b.y1 + BLOCK_GAP_Y - HALF_STEP,
    }
}

fn step_to(v: i64, up: bool) -> (r: i64)
    requires
        -0x100_0000_0000 <= v <= 0x100_0000_0000,
    ensures
        r == stepped(v as int, up),
        v - 127_000 <= r <= v + 254_000,
{
    let near = snap_even(v);
    if up && near < v {
        near + 254_000
    } else {
        near
    }
}

fn does_fit(r: BBox, a: &Area, placed: &Vec<BBox>) -> (f: bool)
    requires
        a.ok(),
    ensures
        f == fits_in(r, *a, placed@),
{
    if r.x0 < a.x0 || r.y0 < a.y0 || r.x1 > a.xmax || r.y1 > a.ymax {
        return false;
    }
    let t = BBox {
        x0: a.tbx - 4 * GRID,
        y0: a.tby - 4 * GRID,
        x1: a.xmax + 100 * GRID,
        y1: a.ymax + 100 * GRID,
    };
    if rects_overlap(r, t) {
        return false;
    }
    let mut i: usize = 0;
    while i < placed.len()
        invariant
            i <= placed@.len(),
            forall|k: int| 0 <= k < i ==> !geom::overlap_spec(r, #[trigger] placed@[k], 0),
        decreases placed@.len() - i,
    {
        if rects_overlap(r, placed[i]) {
            assert(geom::overlap_spec(r, placed@[i as int], 0));
            return false;
        }
        i += 1;
    }
    true
}

fn move_box(b: BBox, c: Pt, up: bool) -> (r: BBox)
    requires
        orient::fits(c.x as int) && orient::fits(c.y as int),
        geo::reach_box(b, 0x80_0000_0000),
    ensures
        r == box_towards(b, c, up),
{
    let dx = step_to(c.x - b.x0, up);
    let dy = step_to(c.y - b.y0, up);
    BBox { x0: b.x0 + dx, y0: b.y0 + dy, x1: b.x1 + dx, y1: b.y1 + dy }
}

fn try_corner(best: Option<Spot>, c: Pt, b: BBox, a: &Area, placed: &Vec<BBox>) -> (r: Option<Spot>)
    requires
        a.ok(),
        orient::fits(c.x as int) && orient::fits(c.y as int),
        geo::reach_box(b, 0x80_0000_0000),
        best is Some ==> orient::fits(best->0.at.x as int) && orient::fits(best->0.at.y as int),
    ensures
        r == tried(best, c, b, *a, placed@),
        r is Some ==> orient::fits(r->0.at.x as int) && orient::fits(r->0.at.y as int),
{
    let first = match best {
        Some(s) => c.y < s.at.y || (c.y == s.at.y && c.x < s.at.x),
        None => true,
    };
    if !first {
        return best;
    }
    if does_fit(move_box(b, c, false), a, placed) {
        Some(Spot { at: c, up: false })
    } else if does_fit(move_box(b, c, true), a, placed) {
        Some(Spot { at: c, up: true })
    } else {
        best
    }
}

fn find_corner(corners: &Vec<BBox>, b: BBox, a: &Area, placed: &Vec<BBox>) -> (r: Option<Spot>)
    requires
        a.ok(),
        near_boxes(corners@),
        geo::reach_box(b, 0x80_0000_0000),
    ensures
        r == best_corner(corners@, b, *a, placed@, corners@.len() as int),
        r is Some ==> orient::fits(r->0.at.x as int) && orient::fits(r->0.at.y as int),
{
    let mut best = try_corner(None, Pt { x: a.x0, y: a.y0 }, b, a, placed);
    let mut i: usize = 0;
    while i < corners.len()
        invariant
            i <= corners@.len(),
            a.ok(),
            near_boxes(corners@),
            geo::reach_box(b, 0x80_0000_0000),
            best == best_corner(corners@, b, *a, placed@, i as int),
            best is Some ==> orient::fits(best->0.at.x as int) && orient::fits(best->0.at.y as int),
        decreases corners@.len() - i,
    {
        let r = corners[i];
        let right = cut_wide(r.x1 as i128 + BLOCK_GAP_X as i128);
        let below = cut_wide(r.y1 as i128 + BLOCK_GAP_Y as i128);
        best = try_corner(best, Pt { x: right, y: cut_off(r.y0) }, b, a, placed);
        best = try_corner(best, Pt { x: cut_off(r.x0), y: below }, b, a, placed);
        best = try_corner(best, Pt { x: right, y: a.y0 }, b, a, placed);
        best = try_corner(best, Pt { x: a.x0, y: below }, b, a, placed);
        i += 1;
    }
    best
}

/// Blocks packed: how each was moved, and the sheet they make.
#[derive(Debug)]
pub struct Packed {
    pub moves: Vec<Move>,
    pub sheet: Geo,
}

impl Packed {
    /// Nothing was moved far, and nothing stands far out.
    pub open spec fn tame(&self) -> bool {
        self.sheet@.within(0x280_0000_0000) && forall|i: int|
            0 <= i < self.moves@.len() ==> small_move(#[trigger] self.moves@[i])
    }
}

pub open spec fn small_move(m: Move) -> bool {
    geo::reach(m.dx as int, 0x200_0000_0000) && geo::reach(m.dy as int, 0x200_0000_0000)
}

pub(crate) proof fn lemma_within_merged(a: GeoV, b: GeoV, r: int)
    requires
        a.within(r),
        b.within(r),
    ensures
        a.merged(b).within(r),
{
    let m = a.merged(b);
    assert forall|i: int| 0 <= i < m.parts.len() implies geo::reach_pt(
        (#[trigger] m.parts[i]).at,
        r,
    ) by {
        if i < a.parts.len() {
            assert(geo::reach_pt(a.parts[i].at, r));
        } else {
            assert(geo::reach_pt(b.parts[i - a.parts.len()].at, r));
        }
    }
    assert forall|i: int| 0 <= i < m.power.len() implies geo::reach_pt(
        (#[trigger] m.power[i]).at,
        r,
    ) by {
        if i < a.power.len() {
            assert(geo::reach_pt(a.power[i].at, r));
        } else {
            assert(geo::reach_pt(b.power[i - a.power.len()].at, r));
        }
    }
    assert forall|i: int| 0 <= i < m.wires.len() implies geo::reach_path(
        #[trigger] m.wires[i],
        r,
    ) by {
        if i < a.wires.len() {
            assert(geo::reach_path(a.wires[i], r));
        } else {
            assert(geo::reach_path(b.wires[i - a.wires.len()], r));
        }
    }
    assert forall|i: int| 0 <= i < m.labels.len() implies geo::reach_pt(
        (#[trigger] m.labels[i]).at,
        r,
    ) by {
        if i < a.labels.len() {
            assert(geo::reach_pt(a.labels[i].at, r));
        } else {
            assert(geo::reach_pt(b.labels[i - a.labels.len()].at, r));
        }
    }
    assert forall|i: int| 0 <= i < m.texts.len() implies geo::reach_pt(
        (#[trigger] m.texts[i]).at,
        r,
    ) by {
        if i < a.texts.len() {
            assert(geo::reach_pt(a.texts[i].at, r));
        } else {
            assert(geo::reach_pt(b.texts[i - a.texts.len()].at, r));
        }
    }
    assert forall|i: int| 0 <= i < m.nc.len() implies geo::reach_pt(#[trigger] m.nc[i], r) by {
        if i < a.nc.len() {
            assert(geo::reach_pt(a.nc[i], r));
        } else {
            assert(geo::reach_pt(b.nc[i - a.nc.len()], r));
        }
    }
    assert forall|i: int| 0 <= i < m.rects.len() implies geo::reach_box(
        #[trigger] m.rects[i],
        r,
    ) by {
        if i < a.rects.len() {
            assert(geo::reach_box(a.rects[i], r));
        } else {
            assert(geo::reach_box(b.rects[i - a.rects.len()], r));
        }
    }
    assert forall|i: int| 0 <= i < m.boxes.len() implies geo::reach_box(
        #[trigger] m.boxes[i],
        r,
    ) by {
        if i < a.boxes.len() {
            assert(geo::reach_box(a.boxes[i], r));
        } else {
            assert(geo::reach_box(b.boxes[i - a.boxes.len()], r));
        }
    }
}

/// Packs blocks in an order: each at the uppermost, then leftmost corner where it lies in the area
/// and stands clear of the title block, the obstacles and the blocks before it. A block is moved by
/// double steps, and where it stands after that is what counts. `None` where one fits nowhere.
pub fn pack_blocks_ordered(geos: &Vec<Geo>, order: &Vec<usize>, a: &Area, obstacles: &Vec<BBox>) -> (r:
    Option<Packed>)
    requires
        can_pack(geos_v(geos@), order@, *a, obstacles@),
    ensures
        match packed(geos_v(geos@), order@, *a, obstacles@, order@.len() as int) {
            Some(s) => r is Some && r->0.moves@ == s.moves && r->0.sheet@ == s.sheet,
            None => r is None,
        },
        r is Some ==> r->0.tame(),
{
    let ghost gv = geos_v(geos@);
    let mut placed: Vec<BBox> = Vec::new();
    let mut corners: Vec<BBox> = Vec::new();
    let mut i: usize = 0;
    while i < obstacles.len()
        invariant
            i <= obstacles@.len(),
            near_boxes(obstacles@),
            placed@.len() == i,
            corners@ == obstacles@.take(i as int),
            forall|k: int| 0 <= k < i ==> #[trigger] placed@[k] == kept_clear(obstacles@[k]),
        decreases obstacles@.len() - i,
    {
        assert(near_box(obstacles@[i as int]));
        placed.push(clear_of(obstacles[i]));
        corners.push(obstacles[i]);
        assert(corners@ =~= obstacles@.take(i + 1));
        i += 1;
    }
    assert(corners@ =~= obstacles@);
    let mut moves: Vec<Move> = Vec::new();
    let mut sheet = Geo::new();
    i = 0;
    assert(packed(gv, order@, *a, obstacles@, 0)->0 =~= PackV {
        placed: placed@,
        corners: corners@,
        moves: moves@,
        sheet: sheet@,
    });
    while i < order.len()
        invariant
            i <= order@.len(),
            gv == geos_v(geos@),
            can_pack(gv, order@, *a, obstacles@),
            near_boxes(corners@),
            sheet@.within(0x280_0000_0000),
            forall|j: int| 0 <= j < moves@.len() ==> small_move(#[trigger] moves@[j]),
            packed(gv, order@, *a, obstacles@, i as int) == Some(
                (PackV {
                    placed: placed@,
                    corners: corners@,
                    moves: moves@,
                    sheet: sheet@,
                }),
            ),
        decreases order@.len() - i,
    {
        assert(order@[i as int] < gv.len());
        let k = order[i];
        assert(gv[k as int] == geos@[k as int]@);
        assert(gv[k as int].within(0x80_0000_0000));
        let b = geos[k].bbox();
        assert(geo::reach_box(b, 0x80_0000_0000));
        let Spot { at: c, up } = match find_corner(&corners, b, a, &placed) {
            Some(s) => s,
            None => {
                proof {
                    lemma_packed_none(gv, order@, *a, obstacles@, i + 1, order@.len() as int);
                }
                return None;
            },
        };
        let dx = step_to(c.x - b.x0, up);
        let dy = step_to(c.y - b.y0, up);
        let mut g = geos[k].dup();
        proof {
            lemma_within_wider(gv[k as int], 0x80_0000_0000, 0x800_0000_0000_0000);
            lemma_within_shift(
                gv[k as int],
                0x80_0000_0000,
                0x200_0000_0000,
                dx as int,
                dy as int,
            );
        }
        g.translate(dx, dy);
        assert(g@.within(0x280_0000_0000));
        let nb = g.bbox();
        assert(near_box(nb));
        let ghost (p0, c0, m0, s0) = (placed@, corners@, moves@, sheet@);
        placed.push(clear_of(nb));
        corners.push(nb);
        moves.push(Move { block: k, dx, dy });
        sheet.merge(&g);
        proof {
            lemma_within_merged(s0, g@, 0x280_0000_0000);
        }
        assert forall|j: int| 0 <= j < moves@.len() implies small_move(#[trigger] moves@[j]) by {
            if j < m0.len() {
                assert(small_move(m0[j]));
            }
        }
        assert(near_boxes(corners@)) by {
            assert forall|j: int| 0 <= j < corners@.len() implies near_box(
                #[trigger] corners@[j],
            ) by {
                if j < c0.len() {
                    assert(near_box(c0[j]));
                }
            }
        }
        i += 1;
    }
    Some(Packed { moves, sheet })
}

pub(crate) proof fn lemma_within_wider(g: GeoV, r: int, s: int)
    requires
        g.within(r),
        0 <= r <= s <= 0x800_0000_0000_0000,
    ensures
        g.within(s),
{
    assert forall|i: int| 0 <= i < g.wires.len() implies geo::reach_path(#[trigger] g.wires[i], s) by {
        assert(geo::reach_path(g.wires[i], r));
    }
}

proof fn lemma_packed_none(
    geos: Seq<GeoV>,
    order: Seq<usize>,
    a: Area,
    obstacles: Seq<BBox>,
    n: int,
    m: int,
)
    requires
        0 <= n <= m,
        packed(geos, order, a, obstacles, n) is None,
    ensures
        packed(geos, order, a, obstacles, m) is None,
    decreases m - n,
{
    if n < m {
        lemma_packed_none(geos, order, a, obstacles, n, m - 1);
    }
}

// ---------------------------------------------------------------- what packing guarantees
proof fn lemma_best_stands(corners: Seq<BBox>, b: BBox, a: Area, placed: Seq<BBox>, n: int)
    ensures
        best_corner(corners, b, a, placed, n) matches Some(s) ==> fits_in(
            box_towards(b, s.at, s.up),
            a,
            placed,
        ),
        best_corner(corners, b, a, placed, n) is Some && a.ok() ==> orient::fits(
            best_corner(corners, b, a, placed, n)->0.at.x as int,
        ) && orient::fits(best_corner(corners, b, a, placed, n)->0.at.y as int),
    decreases n,
{
    if n > 0 {
        lemma_best_stands(corners, b, a, placed, n - 1);
    }
}

/// Whether two boxes share no area.
pub open spec fn apart(a: BBox, b: BBox) -> bool {
    !geom::overlap_spec(a, b, 0)
}

/// No box of a list from `m` on shares area with one before it.
pub open spec fn all_apart(v: Seq<BBox>, m: int) -> bool {
    forall|i: int, j: int|
        0 <= i < j < v.len() && m <= j ==> apart(#[trigger] v[i], #[trigger] v[j])
}

/// Whether a box lies in an area and clear of its title block.
pub open spec fn in_area(r: BBox, a: Area) -> bool {
    &&& a.x0 <= r.x0 && a.y0 <= r.y0 && r.x1 <= a.xmax && r.y1 <= a.ymax
    &&& apart(r, title_room(a))
}

/// What holds of the first `n` packed blocks, whose boxes stand behind those of the obstacles.
pub open spec fn well_packed(s: PackV, geos: Seq<GeoV>, order: Seq<usize>, a: Area, obstacles: Seq<BBox>, n: int) -> bool {
    let m = obstacles.len() as int;
    &&& s.corners.len() == m + n
    &&& s.placed.len() == m + n
    &&& s.moves.len() == n
    &&& near_boxes(s.corners)
    &&& s.corners.take(m) == obstacles
    &&& forall|i: int| 0 <= i < m + n ==> #[trigger] s.placed[i] == kept_clear(s.corners[i])
    &&& all_apart(s.corners, m)
    &&& forall|i: int| m <= i < m + n ==> in_area(#[trigger] s.corners[i], a)
    &&& forall|i: int| 0 <= i < n ==> double_step(geos, order, s.corners[m + i], #[trigger] s.moves[i], i)
}

/// Whether a block of the order was moved as a whole by double steps, to where its box stands.
pub open spec fn double_step(geos: Seq<GeoV>, order: Seq<usize>, b: BBox, m: Move, i: int) -> bool {
    &&& m.block == order[i]
    &&& m.dx % 254_000 == 0
    &&& m.dy % 254_000 == 0
    &&& b == geo::shift_box(geo::hull(geos[order[i] as int].boxes), m.dx as int, m.dy as int)
}

/// What holds of one block more.
#[verifier::spinoff_prover]
proof fn lemma_packed_one(s: PackV, g: GeoV, k: usize, a: Area)
    requires
        a.ok(),
        g.within(0x80_0000_0000),
        g.boxes.len() > 0,
        near_boxes(s.corners),
        s.placed.len() == s.corners.len(),
        forall|i: int| 0 <= i < s.placed.len() ==> #[trigger] s.placed[i] == kept_clear(s.corners[i]),
        packed_one(s, g, k, a) is Some,
    ensures
        ({
            let t = packed_one(s, g, k, a)->0;
            let nb = t.corners.last();
            &&& t.corners == s.corners.push(nb)
            &&& t.placed == s.placed.push(kept_clear(nb))
            &&& t.moves == s.moves.push(t.moves.last())
            &&& near_box(nb)
            &&& in_area(nb, a)
            &&& forall|i: int| 0 <= i < s.corners.len() ==> apart(#[trigger] s.corners[i], nb)
            &&& t.moves.last().block == k
            &&& t.moves.last().dx % 254_000 == 0
            &&& t.moves.last().dy % 254_000 == 0
            &&& nb == geo::shift_box(
                geo::hull(g.boxes),
                t.moves.last().dx as int,
                t.moves.last().dy as int,
            )
        }),
{
    let t = packed_one(s, g, k, a)->0;
    let b = geo::hull(g.boxes);
    geo::lemma_hull_reach(g.boxes, 0x80_0000_0000);
    lemma_best_stands(s.corners, b, a, s.placed, s.corners.len() as int);
    let Spot { at: c, up } = best_corner(s.corners, b, a, s.placed, s.corners.len() as int)->0;
    let (dx, dy) = (stepped(c.x - b.x0, up), stepped(c.y - b.y0, up));
    lemma_stepped(c.x - b.x0, up);
    lemma_stepped(c.y - b.y0, up);
    lemma_within_wider(g, 0x80_0000_0000, 0x800_0000_0000_0000);
    geo::translate_moves_bbox(g, dx, dy);
    let nb = t.corners.last();
    assert(nb == box_towards(b, c, up));
    assert(near_box(nb));
    assert forall|i: int| 0 <= i < s.corners.len() implies apart(#[trigger] s.corners[i], nb) by {
        assert(near_box(s.corners[i]));
        assert(s.placed[i] == kept_clear(s.corners[i]));
        assert(!geom::overlap_spec(nb, s.placed[i], 0));
    }
}

proof fn lemma_well_packed(
    s: PackV,
    t: PackV,
    geos: Seq<GeoV>,
    order: Seq<usize>,
    a: Area,
    obstacles: Seq<BBox>,
    n: int,
)
    requires
        n > 0,
        well_packed(s, geos, order, a, obstacles, n - 1),
        t.corners == s.corners.push(t.corners.last()),
        t.placed == s.placed.push(kept_clear(t.corners.last())),
        t.moves == s.moves.push(t.moves.last()),
        near_box(t.corners.last()),
        in_area(t.corners.last(), a),
        forall|i: int| 0 <= i < s.corners.len() ==> apart(#[trigger] s.corners[i], t.corners.last()),
        double_step(geos, order, t.corners.last(), t.moves.last(), n - 1),
    ensures
        well_packed(t, geos, order, a, obstacles, n),
{
    let m = obstacles.len() as int;
    assert(t.corners.take(m) =~= s.corners.take(m));
    assert(t.corners[m + n - 1] == t.corners.last());
    assert forall|i: int, j: int| 0 <= i < j < t.corners.len() && m <= j implies apart(
        #[trigger] t.corners[i],
        #[trigger] t.corners[j],
    ) by {
        assert(t.corners[i] == s.corners[i]);
        if j < m + n - 1 {
            assert(apart(s.corners[i], s.corners[j]));
        }
    }
    assert forall|i: int| 0 <= i < t.corners.len() implies near_box(#[trigger] t.corners[i]) by {
        if i < m + n - 1 {
            assert(near_box(s.corners[i]));
        }
    }
    assert forall|i: int| m <= i < m + n implies in_area(#[trigger] t.corners[i], a) by {
        if i < m + n - 1 {
            assert(in_area(s.corners[i], a));
        }
    }
    assert forall|i: int| 0 <= i < m + n implies #[trigger] t.placed[i] == kept_clear(
        t.corners[i],
    ) by {
        if i < m + n - 1 {
            assert(s.placed[i] == kept_clear(s.corners[i]));
        }
    }
    assert forall|i: int| 0 <= i < n implies double_step(
        geos,
        order,
        t.corners[m + i],
        #[trigger] t.moves[i],
        i,
    ) by {
        if i < n - 1 {
            assert(double_step(geos, order, s.corners[m + i], s.moves[i], i));
        }
    }
}

/// Packed blocks lie in the area, share no area with one another, with an obstacle or with the
/// title block, and each was moved as a whole by double steps.
#[verifier::spinoff_prover]
#[verifier::rlimit(50)]
pub proof fn packed_blocks_stand_apart(
    geos: Seq<GeoV>,
    order: Seq<usize>,
    a: Area,
    obstacles: Seq<BBox>,
    n: int,
)
    requires
        can_pack(geos, order, a, obstacles),
        0 <= n <= order.len(),
        forall|i: int| 0 <= i < geos.len() ==> (#[trigger] geos[i]).boxes.len() > 0,
        packed(geos, order, a, obstacles, n) is Some,
    ensures
        well_packed(packed(geos, order, a, obstacles, n)->0, geos, order, a, obstacles, n),
    decreases n,
{
    if n == 0 {
        let t = packed(geos, order, a, obstacles, 0)->0;
        assert(t.corners.take(obstacles.len() as int) =~= obstacles);
    } else {
        packed_blocks_stand_apart(geos, order, a, obstacles, n - 1);
        let s = packed(geos, order, a, obstacles, n - 1)->0;
        let k = order[n - 1];
        assert(order[n - 1] < geos.len());
        let g = geos[k as int];
        assert(g.boxes.len() > 0 && g.within(0x80_0000_0000));
        assert(packed(geos, order, a, obstacles, n) == packed_one(s, g, k, a));
        assert(s.placed.len() == s.corners.len());
        lemma_packed_one(s, g, k, a);
        lemma_well_packed(s, packed_one(s, g, k, a)->0, geos, order, a, obstacles, n);
    }
}

proof fn lemma_stepped(v: int, up: bool)
    ensures
        v - 127_000 <= stepped(v, up) <= v + 254_000,
        stepped(v, up) % 254_000 == 0,
{
    geo::lemma_snap_even(v);
    let q = geom::round_div(v, 254_000);
    assert(geo::snap_even_spec(v) == q * 254_000);
    assert((q * 254_000) % 254_000 == 0);
    assert((q * 254_000 + 254_000) % 254_000 == 0);
}

} // verus!
