//! Refining a floor plan: which cells are tried, which trial is kept, where the cells put the
//! parts, and how far a small part is from the pins it serves.
use crate::emit;
use crate::emit::{snap_sum, Gallery, PinEnd, SchematicWriter, SymbolGeometry, WriterV};
use crate::floorplan;
use crate::floorplan::{orient_angle, track_centres, Band, Cell, Item, ItemPin};
use crate::geom;
use crate::geom::{max_i, Pt};
use crate::order_map;
use crate::plan_cost;
use crate::plan_cost::{overlaps_any, Body};
use crate::reconcile;
use crate::reconcile::find_named;
use crate::text;
use crate::text::{is_before, same};
use vstd::prelude::*;

verus! {

/// What moving a part by one cell costs, in the unit of plan costs.
pub const CELL_COST: u128 = 10_000_000;

/// A trial must be cheaper by more than this to be kept.
pub const MARGIN: u128 = 5_000_000;

/// How often all trials are made at most.
pub const ROUNDS: u8 = 6;

/// The room between columns, 6.35 mm.
pub const COL_GAP: i64 = 635_000;

/// The room between rows, 5.08 mm.
pub const ROW_GAP: i64 = 508_000;

/// How many grid steps a part is moved at most to line up with a pin.
pub const STEPS: u8 = 24;

// ---------------------------------------------------------------- trials
/// What is tried next: a part moved to the cell beside its own, or two parts exchanged. Parts are
/// given by their place among those that may move.
#[derive(Debug, Clone, Copy, PartialEq, Eq, Structural)]
pub enum Trial {
    Nudge { sat: usize, side: u8 },
    Swap { a: usize, b: usize },
    Done,
}

/// A refinement under way.
#[derive(Debug)]
pub struct Refine {
    pub cells: Vec<Cell>,
    /// The cells at the start.
    pub orig: Vec<Cell>,
    /// The parts that may move.
    pub sats: Vec<usize>,
    /// What the cells cost.
    pub best: u128,
    /// Where the part that is being nudged stood.
    pub base: Cell,
    pub trial: Trial,
    /// Whether a trial of this round was kept.
    pub improved: bool,
    pub round: u8,
}

#[verifier::ext_equal]
pub struct RefineV {
    pub cells: Seq<Cell>,
    pub orig: Seq<Cell>,
    pub sats: Seq<usize>,
    pub best: u128,
    pub base: Cell,
    pub trial: Trial,
    pub improved: bool,
    pub round: u8,
}

impl View for Refine {
    type V = RefineV;

    open spec fn view(&self) -> RefineV {
        RefineV {
            cells: self.cells@,
            orig: self.orig@,
            sats: self.sats@,
            best: self.best,
            base: self.base,
            trial: self.trial,
            improved: self.improved,
            round: self.round,
        }
    }
}

/// Whether a refinement speaks of parts that there are.
pub open spec fn sound(s: RefineV) -> bool {
    &&& s.orig.len() == s.cells.len()
    &&& forall|i: int| 0 <= i < s.sats.len() ==> #[trigger] s.sats[i] < s.cells.len()
    &&& s.sats.len() <= usize::MAX
    &&& s.round < ROUNDS
    &&& match s.trial {
        Trial::Nudge { sat, side } => sat < s.sats.len() && side < 4,
        Trial::Swap { a, b } => a < b < s.sats.len(),
        Trial::Done => true,
    }
}

pub open spec fn one_less(v: i32) -> i32 {
    if v == i32::MIN {
        v
    } else {
        (v - 1) as i32
    }
}

pub open spec fn one_more(v: i32) -> i32 {
    if v == i32::MAX {
        v
    } else {
        (v + 1) as i32
    }
}

/// The cell on one side of a cell: left, right, above, below.
pub open spec fn beside(c: Cell, side: u8) -> Cell {
    if side == 0 {
        Cell { col: one_less(c.col), ..c }
    } else if side == 1 {
        Cell { col: one_more(c.col), ..c }
    } else if side == 2 {
        Cell { row: one_less(c.row), ..c }
    } else {
        Cell { row: one_more(c.row), ..c }
    }
}

/// Two cells exchanged: their parts keep the way they point.
pub open spec fn swapped(v: Seq<Cell>, i: int, j: int) -> Seq<Cell> {
    v.update(i, Cell { col: v[j].col, row: v[j].row, orient: v[i].orient }).update(
        j,
        Cell { col: v[i].col, row: v[i].row, orient: v[j].orient },
    )
}

/// The cells of the trial that comes next.
pub open spec fn tried(s: RefineV) -> Seq<Cell> {
    match s.trial {
        Trial::Nudge { sat, side } => s.cells.update(s.sats[sat as int] as int, beside(s.base, side)),
        Trial::Swap { a, b } => swapped(s.cells, s.sats[a as int] as int, s.sats[b as int] as int),
        Trial::Done => s.cells,
    }
}

fn move_beside(c: Cell, side: u8) -> (r: Cell)
    ensures
        r == beside(c, side),
{
    if side == 0 {
        Cell { col: if c.col == i32::MIN { c.col } else { c.col - 1 }, ..c }
    } else if side == 1 {
        Cell { col: if c.col == i32::MAX { c.col } else { c.col + 1 }, ..c }
    } else if side == 2 {
        Cell { row: if c.row == i32::MIN { c.row } else { c.row - 1 }, ..c }
    } else {
        Cell { row: if c.row == i32::MAX { c.row } else { c.row + 1 }, ..c }
    }
}

fn dup_cells(v: &Vec<Cell>) -> (r: Vec<Cell>)
    ensures
        r@ == v@,
{
    let mut r: Vec<Cell> = Vec::new();
    let mut i: usize = 0;
    while i < v.len()
        invariant
            i <= v@.len(),
            r@ == v@.take(i as int),
        decreases v@.len() - i,
    {
        r.push(v[i]);
        i += 1;
        assert(r@ =~= v@.take(i as int));
    }
    assert(v@.take(v@.len() as int) =~= v@);
    r
}

/// The cells whose cost is asked for next, if any trial is left.
pub fn next_cells(s: &Refine) -> (r: Option<Vec<Cell>>)
    requires
        sound(s@),
    ensures
        match r {
            Some(v) => s.trial != Trial::Done && v@ == tried(s@),
            None => s.trial == Trial::Done,
        },
{
    let mut v = dup_cells(&s.cells);
    match s.trial {
        Trial::Nudge { sat, side } => {
            assert(s@.sats[sat as int] < s@.cells.len());
            v.set(s.sats[sat], move_beside(s.base, side));
            Some(v)
        },
        Trial::Swap { a, b } => {
            assert(s@.sats[a as int] < s@.cells.len());
            assert(s@.sats[b as int] < s@.cells.len());
            let i = s.sats[a];
            let j = s.sats[b];
            let (ci, cj) = (s.cells[i], s.cells[j]);
            v.set(i, Cell { col: cj.col, row: cj.row, orient: ci.orient });
            v.set(j, Cell { col: ci.col, row: ci.row, orient: cj.orient });
            Some(v)
        },
        Trial::Done => None,
    }
}

// ---------------------------------------------------------------- what a trial costs
/// Whether no two parts are in one cell.
pub open spec fn apart(v: Seq<Cell>) -> bool {
    forall|i: int, j: int|
        0 <= i < j < v.len() ==> !((#[trigger] v[i]).col == (#[trigger] v[j]).col && v[i].row
            == v[j].row)
}

/// Whether no two parts are in one cell; plans with two in one are never kept.
pub fn cells_apart(v: &Vec<Cell>) -> (r: bool)
    ensures
        r == apart(v@),
{
    let mut i: usize = 0;
    while i < v.len()
        invariant
            i <= v@.len(),
            forall|a: int, b: int|
                0 <= a < i && a < b < v@.len() ==> !((#[trigger] v@[a]).col == (
                #[trigger] v@[b]).col && v@[a].row == v@[b].row),
        decreases v@.len() - i,
    {
        let mut j: usize = i + 1;
        while j < v.len()
            invariant
                i < j <= v@.len(),
                forall|b: int|
                    i < b < j ==> !(v@[i as int].col == (#[trigger] v@[b]).col && v@[i as int].row
                        == v@[b].row),
            decreases v@.len() - j,
        {
            if v[i].col == v[j].col && v[i].row == v[j].row {
                return false;
            }
            j += 1;
        }
        i += 1;
    }
    true
}

/// How many cells the first `n` parts that may move are from where they started.
pub open spec fn moved(orig: Seq<Cell>, sats: Seq<usize>, v: Seq<Cell>, n: int) -> int
    decreases n,
{
    if n <= 0 {
        0
    } else {
        let k = sats[n - 1] as int;
        moved(orig, sats, v, n - 1) + geom::mag(v[k].col - orig[k].col) + geom::mag(
            v[k].row - orig[k].row,
        )
    }
}

fn count_moved(orig: &Vec<Cell>, sats: &Vec<usize>, v: &Vec<Cell>) -> (r: u128)
    requires
        orig@.len() == v@.len(),
        forall|i: int| 0 <= i < sats@.len() ==> #[trigger] sats@[i] < v@.len(),
    ensures
        r == moved(orig@, sats@, v@, sats@.len() as int),
        r <= 0x1_0000_0000_0000_0000 * 0x2_0000_0000,
{
    let mut r: u128 = 0;
    let mut i: usize = 0;
    while i < sats.len()
        invariant
            i <= sats@.len(),
            orig@.len() == v@.len(),
            forall|i: int| 0 <= i < sats@.len() ==> #[trigger] sats@[i] < v@.len(),
            r == moved(orig@, sats@, v@, i as int),
            r <= i * 0x2_0000_0000,
        decreases sats@.len() - i,
    {
        let k = sats[i];
        let dx: i64 = v[k].col as i64 - orig[k].col as i64;
        let dy: i64 = v[k].row as i64 - orig[k].row as i64;
        let ax: i64 = if dx < 0 { -dx } else { dx };
        let ay: i64 = if dy < 0 { -dy } else { dy };
        r = r + ax as u128 + ay as u128;
        i += 1;
    }
    r
}

/// What a plan costs: its score, and what its parts were moved.
pub open spec fn total(s: RefineV, v: Seq<Cell>, score: u128) -> int {
    score + CELL_COST * moved(s.orig, s.sats, v, s.sats.len() as int)
}

/// Whether a trial is kept: its parts are apart, and it is cheaper by more than the margin.
pub open spec fn better(s: RefineV, score: Option<u128>) -> bool {
    match score {
        Some(c) => apart(tried(s)) && total(s, tried(s), c) + MARGIN < s.best,
        None => false,
    }
}

/// The refinement with the trial kept, or as it was.
pub open spec fn settled(s: RefineV, score: Option<u128>) -> RefineV {
    if s.trial != Trial::Done && better(s, score) {
        RefineV {
            cells: tried(s),
            best: total(s, tried(s), score->0) as u128,
            improved: true,
            ..s
        }
    } else {
        s
    }
}

/// The refinement at the end of a round: another follows where one helped.
pub open spec fn round_over(s: RefineV) -> RefineV {
    if s.improved && s.round + 1 < ROUNDS {
        RefineV {
            trial: Trial::Nudge { sat: 0, side: 0 },
            base: s.cells[s.sats[0] as int],
            improved: false,
            round: (s.round + 1) as u8,
            ..s
        }
    } else {
        RefineV { trial: Trial::Done, ..s }
    }
}

/// The refinement at its next trial: each part to each side, then each two exchanged.
pub open spec fn advanced(s: RefineV) -> RefineV {
    match s.trial {
        Trial::Nudge { sat, side } => if side < 3 {
            RefineV { trial: Trial::Nudge { sat, side: (side + 1) as u8 }, ..s }
        } else if sat + 1 < s.sats.len() {
            RefineV {
                trial: Trial::Nudge { sat: (sat + 1) as usize, side: 0 },
                base: s.cells[s.sats[sat + 1] as int],
                ..s
            }
        } else if s.sats.len() >= 2 {
            RefineV { trial: Trial::Swap { a: 0, b: 1 }, ..s }
        } else {
            round_over(s)
        },
        Trial::Swap { a, b } => if b + 1 < s.sats.len() {
            RefineV { trial: Trial::Swap { a, b: (b + 1) as usize }, ..s }
        } else if a + 2 < s.sats.len() {
            RefineV { trial: Trial::Swap { a: (a + 1) as usize, b: (a + 2) as usize }, ..s }
        } else {
            round_over(s)
        },
        Trial::Done => s,
    }
}

/// The refinement after a trial.
pub open spec fn refined(s: RefineV, score: Option<u128>) -> RefineV {
    advanced(settled(s, score))
}

fn end_round(s: &mut Refine)
    requires
        sound(old(s)@),
        old(s).sats@.len() > 0,
    ensures
        final(s)@ == round_over(old(s)@),
{
    if s.improved && s.round + 1 < ROUNDS {
        assert(s@.sats[0] < s@.cells.len());
        s.base = s.cells[s.sats[0]];
        s.trial = Trial::Nudge { sat: 0, side: 0 };
        s.improved = false;
        s.round = s.round + 1;
    } else {
        s.trial = Trial::Done;
    }
}

fn advance(s: &mut Refine)
    requires
        sound(old(s)@),
    ensures
        final(s)@ == advanced(old(s)@),
{
    let m = s.sats.len();
    match s.trial {
        Trial::Nudge { sat, side } => {
            if side < 3 {
                s.trial = Trial::Nudge { sat, side: side + 1 };
            } else if m - sat > 1 {
                assert(s@.sats[sat + 1] < s@.cells.len());
                s.base = s.cells[s.sats[sat + 1]];
                s.trial = Trial::Nudge { sat: sat + 1, side: 0 };
            } else if m >= 2 {
                s.trial = Trial::Swap { a: 0, b: 1 };
            } else {
                end_round(s);
            }
        },
        Trial::Swap { a, b } => {
            if m - b > 1 {
                s.trial = Trial::Swap { a, b: b + 1 };
            } else if m - a > 2 {
                s.trial = Trial::Swap { a: a + 1, b: a + 2 };
            } else {
                end_round(s);
            }
        },
        Trial::Done => {},
    }
}

/// The refinement of cells whose parts have the given numbers of pins: parts with fewer than three
/// may move.
pub open spec fn movable(pins: Seq<usize>, n: int) -> Seq<usize>
    decreases n,
{
    if n <= 0 {
        Seq::empty()
    } else if pins[n - 1] < 3 {
        movable(pins, n - 1).push((n - 1) as usize)
    } else {
        movable(pins, n - 1)
    }
}

proof fn lemma_movable(pins: Seq<usize>, n: int)
    requires
        0 <= n <= pins.len() <= usize::MAX,
    ensures
        forall|i: int| 0 <= i < movable(pins, n).len() ==> #[trigger] movable(pins, n)[i] < n,
    decreases n,
{
    if n > 0 {
        lemma_movable(pins, n - 1);
        let r = movable(pins, n - 1);
        assert forall|i: int| 0 <= i < movable(pins, n).len() implies #[trigger] movable(pins, n)[i]
            < n by {
            if i < r.len() {
                assert(r[i] < n - 1);
            }
        }
    }
}

/// Starts a refinement from cells and their score.
pub fn start_refine(cells: Vec<Cell>, pins: &Vec<usize>, score: u128) -> (r: Refine)
    requires
        pins@.len() == cells@.len(),
    ensures
        sound(r@),
        r@ == (RefineV {
            cells: cells@,
            orig: cells@,
            sats: movable(pins@, pins@.len() as int),
            best: score,
            base: r.base,
            trial: if movable(pins@, pins@.len() as int).len() == 0 {
                Trial::Done
            } else {
                Trial::Nudge { sat: 0, side: 0 }
            },
            improved: false,
            round: 0,
        }),
        r.trial != Trial::Done ==> r.base == cells@[r.sats@[0] as int],
{
    let mut sats: Vec<usize> = Vec::new();
    let mut i: usize = 0;
    while i < pins.len()
        invariant
            i <= pins@.len(),
            sats@ == movable(pins@, i as int),
        decreases pins@.len() - i,
    {
        if pins[i] < 3 {
            sats.push(i);
        }
        i += 1;
    }
    proof {
        lemma_movable(pins@, pins@.len() as int);
    }
    let orig = dup_cells(&cells);
    if sats.len() == 0 {
        let base = Cell { col: 0, row: 0, orient: floorplan::Orient::Right };
        return Refine {
            cells,
            orig,
            sats,
            best: score,
            base,
            trial: Trial::Done,
            improved: false,
            round: 0,
        };
    }
    assert(sats@[0] < cells@.len());
    let base = cells[sats[0]];
    Refine {
        cells,
        orig,
        sats,
        best: score,
        base,
        trial: Trial::Nudge { sat: 0, side: 0 },
        improved: false,
        round: 0,
    }
}

/// Takes the score of the trial that was asked for, keeps the trial only if it is cheaper by more
/// than the margin, and goes on to the next one.
pub fn refine_step(s: Refine, score: Option<u128>) -> (r: Refine)
    requires
        sound(s@),
    ensures
        r@ == refined(s@, score),
        sound(r@),
        r.best <= s.best,
        r.cells@ != s.cells@ ==> r.best < s.best,
{
    let mut t = s;
    proof {
        lemma_step_sound(s@, score);
    }
    let kept = match (next_cells(&t), score) {
        (Some(v), Some(c)) => {
            if cells_apart(&v) {
                assert(forall|i: int| 0 <= i < t.sats@.len() ==> t@.sats[i] < v@.len());
                let d: u128 = CELL_COST * count_moved(&t.orig, &t.sats, &v);
                if c < t.best && d + MARGIN < t.best - c {
                    t.cells = v;
                    t.best = c + d;
                    t.improved = true;
                    true
                } else {
                    false
                }
            } else {
                false
            }
        },
        _ => false,
    };
    assert(t@ =~= settled(s@, score));
    advance(&mut t);
    t
}

proof fn lemma_moved(orig: Seq<Cell>, sats: Seq<usize>, v: Seq<Cell>, n: int)
    ensures
        moved(orig, sats, v, n) >= 0,
    decreases n,
{
    if n > 0 {
        lemma_moved(orig, sats, v, n - 1);
    }
}

proof fn lemma_step_sound(s: RefineV, score: Option<u128>)
    requires
        sound(s),
    ensures
        sound(settled(s, score)),
        sound(refined(s, score)),
        refined(s, score).best <= s.best,
        refined(s, score).cells != s.cells ==> refined(s, score).best < s.best,
{
    let t = settled(s, score);
    lemma_moved(s.orig, s.sats, tried(s), s.sats.len() as int);
    assert(t.sats == s.sats);
    assert(t.cells.len() == s.cells.len());
}

/// A refinement after trials with the given scores.
pub open spec fn refined_by(s: RefineV, scores: Seq<Option<u128>>) -> RefineV
    decreases scores.len(),
{
    if scores.len() == 0 {
        s
    } else {
        refined(refined_by(s, scores.drop_last()), scores.last())
    }
}

/// Whatever the trials score, a refinement never ends worse than it began, and where it ends with
/// other cells it ends cheaper.
pub proof fn refining_never_ends_worse(s: RefineV, scores: Seq<Option<u128>>)
    requires
        sound(s),
    ensures
        refined_by(s, scores).best <= s.best,
        refined_by(s, scores).cells != s.cells ==> refined_by(s, scores).best < s.best,
        sound(refined_by(s, scores)),
    decreases scores.len(),
{
    if scores.len() > 0 {
        refining_never_ends_worse(s, scores.drop_last());
        lemma_step_sound(refined_by(s, scores.drop_last()), scores.last());
    }
}

// ---------------------------------------------------------------- where cells put parts
/// Where a track is or would be: behind those with smaller numbers.
pub open spec fn track_place(m: Seq<(i32, i64)>, k: i32, i: int) -> int
    decreases m.len() - i,
{
    if 0 <= i < m.len() && m[i].0 < k {
        track_place(m, k, i + 1)
    } else {
        i
    }
}

/// Tracks with one that is at least as large as given.
pub open spec fn with_track(m: Seq<(i32, i64)>, k: i32, size: i64) -> Seq<(i32, i64)> {
    let i = track_place(m, k, 0);
    if i < m.len() && m[i].0 == k {
        m.update(i, (k, geom::hi(m[i].1 as int, size as int) as i64))
    } else {
        m.insert(i, (k, geom::hi(0, size as int) as i64))
    }
}

/// How wide and high a part is as it is turned.
pub open spec fn turned_size(g: SymbolGeometry, angle: i32) -> (i64, i64) {
    if angle as int / 90 % 2 == 1 {
        (g.height, g.width)
    } else {
        (g.width, g.height)
    }
}

/// The columns of the first `n` cells: each as wide as its widest part.
pub open spec fn columns(g: Seq<SymbolGeometry>, v: Seq<Cell>, n: int) -> Seq<(i32, i64)>
    decreases n,
{
    if n <= 0 {
        Seq::empty()
    } else {
        let c = v[n - 1];
        with_track(
            columns(g, v, n - 1),
            c.col,
            turned_size(g[n - 1], floorplan::angle_for(g[n - 1], c.orient)).0,
        )
    }
}

/// The rows of the first `n` cells: each as high as its highest part.
pub open spec fn rows(g: Seq<SymbolGeometry>, v: Seq<Cell>, n: int) -> Seq<(i32, i64)>
    decreases n,
{
    if n <= 0 {
        Seq::empty()
    } else {
        let c = v[n - 1];
        with_track(
            rows(g, v, n - 1),
            c.row,
            turned_size(g[n - 1], floorplan::angle_for(g[n - 1], c.orient)).1,
        )
    }
}

/// Where a cell puts its part: in the middle of its column and row, on the grid.
pub open spec fn cell_at(g: Seq<SymbolGeometry>, v: Seq<Cell>, i: int) -> Pt {
    let c = columns(g, v, v.len() as int);
    let r = rows(g, v, v.len() as int);
    emit::snapped_pt(
        floorplan::track_centre(c, COL_GAP as int, track_place(c, v[i].col, 0)) as int,
        floorplan::track_centre(r, ROW_GAP as int, track_place(r, v[i].row, 0)) as int,
    )
}

fn find_track(m: &Vec<(i32, i64)>, k: i32) -> (r: usize)
    ensures
        r == track_place(m@, k, 0),
        r <= m@.len(),
{
    let mut i: usize = 0;
    while i < m.len() && m[i].0 < k
        invariant
            i <= m@.len(),
            track_place(m@, k, 0) == track_place(m@, k, i as int),
        decreases m@.len() - i,
    {
        i += 1;
    }
    i
}

fn add_track(m: &mut Vec<(i32, i64)>, k: i32, size: i64)
    ensures
        final(m)@ == with_track(old(m)@, k, size),
{
    let i = find_track(m, k);
    if i < m.len() && m[i].0 == k {
        let s = max_i(m[i].1, size);
        m.set(i, (k, s));
    } else {
        m.insert(i, (k, max_i(0, size)));
    }
}

/// A track that was added once is there ever after.
pub open spec fn has_track(m: Seq<(i32, i64)>, k: i32) -> bool {
    track_place(m, k, 0) < m.len() && m[track_place(m, k, 0)].0 == k
}

/// Whether tracks are in ascending order.
pub open spec fn ascending(m: Seq<(i32, i64)>) -> bool {
    forall|i: int, j: int| 0 <= i < j < m.len() ==> (#[trigger] m[i]).0 < (#[trigger] m[j]).0
}

proof fn lemma_place(m: Seq<(i32, i64)>, k: i32, i: int)
    requires
        ascending(m),
        0 <= i <= m.len(),
        forall|j: int| 0 <= j < i ==> (#[trigger] m[j]).0 < k,
    ensures
        i <= track_place(m, k, i) <= m.len(),
        forall|j: int| 0 <= j < track_place(m, k, i) ==> (#[trigger] m[j]).0 < k,
        track_place(m, k, i) < m.len() ==> m[track_place(m, k, i)].0 >= k,
    decreases m.len() - i,
{
    if i < m.len() && m[i].0 < k {
        lemma_place(m, k, i + 1);
    }
}

proof fn lemma_placed(m: Seq<(i32, i64)>, k: i32, p: int)
    requires
        ascending(m),
        0 <= p < m.len(),
        m[p].0 == k,
    ensures
        track_place(m, k, 0) == p,
{
    lemma_place(m, k, 0);
    let q = track_place(m, k, 0);
    if q < p {
        assert(m[q].0 < m[p].0);
    }
    if p < q {
        assert(m[p].0 < k);
    }
}

proof fn lemma_with_track(m: Seq<(i32, i64)>, k: i32, size: i64)
    requires
        ascending(m),
    ensures
        ascending(with_track(m, k, size)),
        has_track(with_track(m, k, size), k),
        forall|q: i32| has_track(m, q) ==> has_track(with_track(m, k, size), q),
{
    lemma_place(m, k, 0);
    let i = track_place(m, k, 0);
    let r = with_track(m, k, size);
    if i < m.len() && m[i].0 == k {
        assert(forall|j: int| 0 <= j < m.len() ==> (#[trigger] r[j]).0 == m[j].0);
        assert(ascending(r));
        lemma_placed(r, k, i);
        assert forall|q: i32| has_track(m, q) implies has_track(r, q) by {
            let p = track_place(m, q, 0);
            lemma_place(m, q, 0);
            lemma_placed(r, q, p);
        }
    } else {
        assert forall|a: int, b: int| 0 <= a < b < r.len() implies (#[trigger] r[a]).0 < (
        #[trigger] r[b]).0 by {
            let a0 = if a < i { a } else { a - 1 };
            let b0 = if b < i { b } else { b - 1 };
            if a != i && b != i {
                assert(m[a0].0 < m[b0].0);
            } else if a == i {
                assert(m[i].0 <= m[b0].0);
            }
        }
        lemma_placed(r, k, i);
        assert forall|q: i32| has_track(m, q) implies has_track(r, q) by {
            let p = track_place(m, q, 0);
            lemma_place(m, q, 0);
            if p < i {
                assert(r[p] == m[p]);
                lemma_placed(r, q, p);
            } else {
                assert(r[p + 1] == m[p]);
                lemma_placed(r, q, p + 1);
            }
        }
    }
}

/// Puts parts where their cells say, turned as their cells say.
pub fn apply_cells(items: &mut Vec<Item>, geoms: &Vec<SymbolGeometry>, cells: &Vec<Cell>)
    requires
        geoms@.len() == old(items)@.len(),
        cells@.len() == old(items)@.len(),
    ensures
        final(items)@.len() == old(items)@.len(),
        forall|i: int|
            0 <= i < final(items)@.len() ==> {
                let a = #[trigger] final(items)@[i];
                let b = old(items)@[i];
                &&& a.at == cell_at(geoms@, cells@, i)
                &&& a.angle == floorplan::angle_for(geoms@[i], cells@[i].orient)
                &&& a.refdes == b.refdes && a.part == b.part && a.pins == b.pins
            },
{
    let mut cols: Vec<(i32, i64)> = Vec::new();
    let mut lines: Vec<(i32, i64)> = Vec::new();
    let n = cells.len();
    let mut i: usize = 0;
    while i < n
        invariant
            i <= n,
            n == cells@.len(),
            n == geoms@.len(),
            cols@ == columns(geoms@, cells@, i as int),
            lines@ == rows(geoms@, cells@, i as int),
            ascending(cols@),
            ascending(lines@),
            forall|j: int| 0 <= j < i ==> has_track(cols@, #[trigger] cells@[j].col),
            forall|j: int| 0 <= j < i ==> has_track(lines@, #[trigger] cells@[j].row),
        decreases n - i,
    {
        let c = cells[i];
        let g = &geoms[i];
        let angle = orient_angle(g, c.orient);
        let quarter = angle == 90 || angle == 270;
        assert(angle as int / 90 % 2 == 1 <==> quarter);
        let (w, h) = if quarter { (g.height, g.width) } else { (g.width, g.height) };
        proof {
            lemma_with_track(cols@, c.col, w);
            lemma_with_track(lines@, c.row, h);
        }
        add_track(&mut cols, c.col, w);
        add_track(&mut lines, c.row, h);
        i += 1;
    }
    let xs = track_centres(&cols, COL_GAP);
    let ys = track_centres(&lines, ROW_GAP);
    let ghost it0 = items@;
    let mut k: usize = 0;
    while k < n
        invariant
            k <= n,
            n == cells@.len(),
            n == geoms@.len(),
            n == items@.len(),
            n == it0.len(),
            cols@ == columns(geoms@, cells@, n as int),
            lines@ == rows(geoms@, cells@, n as int),
            forall|j: int| 0 <= j < n ==> has_track(cols@, #[trigger] cells@[j].col),
            forall|j: int| 0 <= j < n ==> has_track(lines@, #[trigger] cells@[j].row),
            xs@.len() == cols@.len(),
            ys@.len() == lines@.len(),
            forall|i: int|
                0 <= i < cols@.len() ==> (#[trigger] xs@[i]).1 == floorplan::track_centre(
                    cols@,
                    COL_GAP as int,
                    i,
                ),
            forall|i: int|
                0 <= i < lines@.len() ==> (#[trigger] ys@[i]).1 == floorplan::track_centre(
                    lines@,
                    ROW_GAP as int,
                    i,
                ),
            forall|i: int|
                k <= i < n ==> #[trigger] items@[i] == it0[i],
            forall|i: int|
                0 <= i < k ==> {
                    let a = #[trigger] items@[i];
                    let b = it0[i];
                    &&& a.at == cell_at(geoms@, cells@, i)
                    &&& a.angle == floorplan::angle_for(geoms@[i], cells@[i].orient)
                    &&& a.refdes == b.refdes && a.part == b.part && a.pins == b.pins
                },
        decreases n - k,
    {
        let c = cells[k];
        assert(has_track(cols@, cells@[k as int].col));
        assert(has_track(lines@, cells@[k as int].row));
        let a = find_track(&cols, c.col);
        let b = find_track(&lines, c.row);
        let at = snap_sum(xs[a].1 as i128, ys[b].1 as i128);
        let angle = orient_angle(&geoms[k], c.orient);
        items[k].at = at;
        items[k].angle = angle;
        k += 1;
    }
}

// ---------------------------------------------------------------- which pins a net has
/// A pin of a part of a plan: the part's place in the plan, and the pin's number.
pub type Use = (Seq<char>, Seq<(int, Seq<char>)>);

pub open spec fn uses_v(v: Seq<(usize, String)>) -> Seq<(int, Seq<char>)> {
    Seq::new(v.len(), |i: int| (v[i].0 as int, v[i].1@))
}

pub open spec fn incidence_v(v: Seq<(String, Vec<(usize, String)>)>) -> Seq<Use> {
    Seq::new(v.len(), |i: int| (v[i].0@, uses_v(v[i].1@)))
}

/// Where a net is or would be: behind those with smaller names.
pub open spec fn net_place(m: Seq<Use>, k: Seq<char>, i: int) -> int
    decreases m.len() - i,
{
    if 0 <= i < m.len() && text::before(m[i].0, k) {
        net_place(m, k, i + 1)
    } else {
        i
    }
}

/// A list of nets with one more pin.
pub open spec fn with_use(m: Seq<Use>, net: Seq<char>, u: (int, Seq<char>)) -> Seq<Use> {
    let i = net_place(m, net, 0);
    if i < m.len() && m[i].0 == net {
        m.update(i, (net, m[i].1.push(u)))
    } else {
        m.insert(i, (net, seq![u]))
    }
}

/// The nets of the first `n` pins of a part.
pub open spec fn part_uses(m: Seq<Use>, k: int, pins: Seq<ItemPin>, n: int) -> Seq<Use>
    decreases n,
{
    if n <= 0 {
        m
    } else {
        let r = part_uses(m, k, pins, n - 1);
        match pins[n - 1]@.net {
            Some(net) => with_use(r, net, (k, pins[n - 1]@.number)),
            None => r,
        }
    }
}

/// The nets of the first `n` parts, by name, each with its pins in the order of the plan.
pub open spec fn incident(items: Seq<Item>, n: int) -> Seq<Use>
    decreases n,
{
    if n <= 0 {
        Seq::empty()
    } else {
        part_uses(
            incident(items, n - 1),
            n - 1,
            items[n - 1].pins@,
            items[n - 1].pins@.len() as int,
        )
    }
}

fn add_use(v: &mut Vec<(String, Vec<(usize, String)>)>, net: &str, k: usize, pin: &str)
    ensures
        incidence_v(final(v)@) == with_use(incidence_v(old(v)@), net@, (k as int, pin@)),
{
    let ghost m = incidence_v(v@);
    let mut i: usize = 0;
    while i < v.len() && is_before(v[i].0.as_str(), net)
        invariant
            i <= v@.len(),
            m == incidence_v(v@),
            net_place(m, net@, 0) == net_place(m, net@, i as int),
        decreases v@.len() - i,
    {
        assert(m[i as int].0 == v@[i as int].0@);
        i += 1;
    }
    if i < v.len() {
        assert(m[i as int].0 == v@[i as int].0@);
    }
    if i < v.len() && same(v[i].0.as_str(), net) {
        let ghost u = uses_v(v@[i as int].1@);
        v[i].1.push((k, pin.to_owned()));
        assert(uses_v(v@[i as int].1@) =~= u.push((k as int, pin@)));
        assert(incidence_v(v@) =~= m.update(i as int, (net@, u.push((k as int, pin@)))));
    } else {
        let mut one: Vec<(usize, String)> = Vec::new();
        one.push((k, pin.to_owned()));
        assert(uses_v(one@) =~= seq![(k as int, pin@)]);
        v.insert(i, (net.to_owned(), one));
        assert(incidence_v(v@) =~= m.insert(i as int, (net@, seq![(k as int, pin@)])));
    }
}

/// The nets of a plan, by name, each with the pins on it.
pub fn incidence(items: &Vec<Item>) -> (r: Vec<(String, Vec<(usize, String)>)>)
    ensures
        incidence_v(r@) == incident(items@, items@.len() as int),
{
    let mut r: Vec<(String, Vec<(usize, String)>)> = Vec::new();
    assert(incidence_v(r@) =~= Seq::empty());
    let mut i: usize = 0;
    while i < items.len()
        invariant
            i <= items@.len(),
            incidence_v(r@) == incident(items@, i as int),
        decreases items@.len() - i,
    {
        let pins = &items[i].pins;
        let mut j: usize = 0;
        while j < pins.len()
            invariant
                j <= pins@.len(),
                incidence_v(r@) == part_uses(
                    incident(items@, i as int),
                    i as int,
                    pins@,
                    j as int,
                ),
            decreases pins@.len() - j,
        {
            match &pins[j].net {
                Some(net) => add_use(&mut r, net.as_str(), i, pins[j].number.as_str()),
                None => {},
            }
            j += 1;
        }
        i += 1;
    }
    r
}

// ---------------------------------------------------------------- the pins a part serves
/// The first `n` pin ends of a net that belong to parts with three pins or more.
pub open spec fn anchor_ends(
    w: WriterV,
    gallery: Gallery,
    items: Seq<Item>,
    geoms: Seq<SymbolGeometry>,
    u: Seq<(int, Seq<char>)>,
    n: int,
) -> Seq<PinEnd>
    decreases n,
{
    if n <= 0 {
        Seq::empty()
    } else {
        let r = anchor_ends(w, gallery, items, geoms, u, n - 1);
        let j = u[n - 1].0;
        if 0 <= j < items.len() && geoms[j].pins@.len() >= 3 {
            match emit::pin_ends(w, gallery, items[j].refdes@, u[n - 1].1) {
                Ok(e) => r + e,
                Err(_) => r,
            }
        } else {
            r
        }
    }
}

/// The pin ends that the first `n` pins of a part meet: on rails, or on nets that are none.
pub open spec fn met_ends(
    w: WriterV,
    gallery: Gallery,
    items: Seq<Item>,
    geoms: Seq<SymbolGeometry>,
    inc: Seq<Use>,
    rails: Seq<(Seq<char>, Band)>,
    pins: Seq<ItemPin>,
    on_rails: bool,
    n: int,
) -> Seq<PinEnd>
    decreases n,
{
    if n <= 0 {
        Seq::empty()
    } else {
        let r = met_ends(w, gallery, items, geoms, inc, rails, pins, on_rails, n - 1);
        match pins[n - 1]@.net {
            Some(net) => if (order_map::look(rails, net) is Some) == on_rails {
                match order_map::look(inc, net) {
                    Some(u) => r + anchor_ends(w, gallery, items, geoms, u, u.len() as int),
                    None => r,
                }
            } else {
                r
            },
            None => r,
        }
    }
}

pub open spec fn sum_x(v: Seq<PinEnd>, n: int) -> int
    decreases n,
{
    if n <= 0 {
        0
    } else {
        sum_x(v, n - 1) + v[n - 1].at.x
    }
}

pub open spec fn sum_y(v: Seq<PinEnd>, n: int) -> int
    decreases n,
{
    if n <= 0 {
        0
    } else {
        sum_y(v, n - 1) + v[n - 1].at.y
    }
}

/// The mean of pin ends, each coordinate rounded down to the unit.
pub open spec fn mean(v: Seq<PinEnd>) -> Option<Pt> {
    if v.len() == 0 {
        None
    } else {
        Some(
            Pt {
                x: (sum_x(v, v.len() as int) / v.len() as int) as i64,
                y: (sum_y(v, v.len() as int) / v.len() as int) as i64,
            },
        )
    }
}

/// Where a small part belongs: amid the pins of large parts that it meets on signal nets; where
/// there are none and rails may do, amid those that it meets on rails.
pub open spec fn served(
    w: WriterV,
    gallery: Gallery,
    items: Seq<Item>,
    geoms: Seq<SymbolGeometry>,
    inc: Seq<Use>,
    rails: Seq<(Seq<char>, Band)>,
    k: int,
    rails_do: bool,
) -> Option<Pt> {
    let p = items[k].pins@;
    let n = p.len() as int;
    let s = met_ends(w, gallery, items, geoms, inc, rails, p, false, n);
    if s.len() == 0 && rails_do {
        mean(met_ends(w, gallery, items, geoms, inc, rails, p, true, n))
    } else {
        mean(s)
    }
}

fn floor_div(a: i128, n: usize) -> (r: i128)
    requires
        n > 0,
        a > i128::MIN,
    ensures
        r == a as int / n as int,
{
    let m: i128 = n as i128;
    if a >= 0 {
        a / m
    } else {
        let b: i128 = -a;
        let q: i128 = b / m;
        let t: i128 = b % m;
        proof {
            assert(b == q * m + t) by (nonlinear_arith)
                requires
                    b >= 0,
                    m > 0,
                    q == b as int / m as int,
                    t == b as int % m as int,
            ;
        }
        if t == 0 {
            proof {
                assert((-q) * m == -(q * m)) by (nonlinear_arith);
                vstd::arithmetic::div_mod::lemma_fundamental_div_mod_converse(
                    a as int,
                    m as int,
                    -(q as int),
                    0,
                );
            }
            -q
        } else {
            proof {
                assert((-q - 1) * m == -(q * m) - m) by (nonlinear_arith);
                vstd::arithmetic::div_mod::lemma_fundamental_div_mod_converse(
                    a as int,
                    m as int,
                    -(q as int) - 1,
                    m - t,
                );
            }
            -q - 1
        }
    }
}

proof fn lemma_mean(s: int, n: int)
    requires
        n > 0,
        i64::MIN * n <= s <= i64::MAX * n,
    ensures
        i64::MIN <= s / n <= i64::MAX,
{
    assert(i64::MIN <= s / n <= i64::MAX) by (nonlinear_arith)
        requires
            n > 0,
            i64::MIN * n <= s <= i64::MAX * n,
    ;
}

fn mean_of(v: &Vec<PinEnd>) -> (r: Option<Pt>)
    ensures
        r == mean(v@),
{
    if v.len() == 0 {
        return None;
    }
    let mut sx: i128 = 0;
    let mut sy: i128 = 0;
    let mut i: usize = 0;
    while i < v.len()
        invariant
            i <= v@.len(),
            sx == sum_x(v@, i as int),
            sy == sum_y(v@, i as int),
            i64::MIN * i <= sx <= i64::MAX * i,
            i64::MIN * i <= sy <= i64::MAX * i,
        decreases v@.len() - i,
    {
        sx = sx + v[i].at.x as i128;
        sy = sy + v[i].at.y as i128;
        i += 1;
    }
    proof {
        lemma_mean(sx as int, v@.len() as int);
        lemma_mean(sy as int, v@.len() as int);
    }
    let x = floor_div(sx, v.len());
    let y = floor_div(sy, v.len());
    Some(Pt { x: x as i64, y: y as i64 })
}

fn push_ends(v: &mut Vec<PinEnd>, e: &Vec<PinEnd>)
    ensures
        final(v)@ == old(v)@ + e@,
{
    let ghost v0 = v@;
    let mut i: usize = 0;
    while i < e.len()
        invariant
            i <= e@.len(),
            v@ == v0 + e@.take(i as int),
        decreases e@.len() - i,
    {
        v.push(PinEnd { at: e[i].at, dir: e[i].dir });
        i += 1;
        assert(v@ =~= v0 + e@.take(i as int));
    }
    assert(e@.take(e@.len() as int) =~= e@);
}

fn collect_anchor_ends(
    w: &SchematicWriter,
    gallery: &Gallery,
    items: &Vec<Item>,
    geoms: &Vec<SymbolGeometry>,
    u: &Vec<(usize, String)>,
) -> (r: Vec<PinEnd>)
    requires
        geoms@.len() == items@.len(),
    ensures
        r@ == anchor_ends(w@, *gallery, items@, geoms@, uses_v(u@), u@.len() as int),
{
    let mut r: Vec<PinEnd> = Vec::new();
    let mut i: usize = 0;
    while i < u.len()
        invariant
            i <= u@.len(),
            geoms@.len() == items@.len(),
            r@ == anchor_ends(w@, *gallery, items@, geoms@, uses_v(u@), i as int),
        decreases u@.len() - i,
    {
        assert(uses_v(u@)[i as int] == (u@[i as int].0 as int, u@[i as int].1@));
        let j = u[i].0;
        if j < items.len() && geoms[j].pins.len() >= 3 {
            match w.pin_dirs(gallery, items[j].refdes.as_str(), u[i].1.as_str()) {
                Ok(e) => push_ends(&mut r, &e),
                Err(_) => {},
            }
        }
        i += 1;
    }
    r
}

proof fn lemma_look(v: Seq<(String, Vec<(usize, String)>)>, k: Seq<char>, i: int)
    requires
        0 <= i <= v.len(),
    ensures
        order_map::seek(incidence_v(v), k, i) == order_map::seek(reconcile::named(v), k, i),
    decreases v.len() - i,
{
    if i < v.len() {
        assert(incidence_v(v)[i].0 == reconcile::named(v)[i].0);
        lemma_look(v, k, i + 1);
    }
}

fn collect_met_ends(
    w: &SchematicWriter,
    gallery: &Gallery,
    items: &Vec<Item>,
    geoms: &Vec<SymbolGeometry>,
    inc: &Vec<(String, Vec<(usize, String)>)>,
    rails: &Vec<(String, Band)>,
    k: usize,
    on_rails: bool,
) -> (r: Vec<PinEnd>)
    requires
        geoms@.len() == items@.len(),
        k < items@.len(),
    ensures
        r@ == met_ends(
            w@,
            *gallery,
            items@,
            geoms@,
            incidence_v(inc@),
            reconcile::named(rails@),
            items@[k as int].pins@,
            on_rails,
            items@[k as int].pins@.len() as int,
        ),
{
    let pins = &items[k].pins;
    let mut r: Vec<PinEnd> = Vec::new();
    let mut i: usize = 0;
    while i < pins.len()
        invariant
            i <= pins@.len(),
            geoms@.len() == items@.len(),
            r@ == met_ends(
                w@,
                *gallery,
                items@,
                geoms@,
                incidence_v(inc@),
                reconcile::named(rails@),
                pins@,
                on_rails,
                i as int,
            ),
        decreases pins@.len() - i,
    {
        match &pins[i].net {
            Some(net) => {
                let rail = find_named(rails, net.as_str()).is_some();
                if rail == on_rails {
                    proof {
                        lemma_look(inc@, net@, 0);
                        order_map::lemma_seek(incidence_v(inc@), net@, 0);
                    }
                    match find_named(inc, net.as_str()) {
                        Some(u) => {
                            let e = collect_anchor_ends(w, gallery, items, geoms, u);
                            push_ends(&mut r, &e);
                        },
                        None => {},
                    }
                }
            },
            None => {},
        }
        i += 1;
    }
    r
}

/// Where a small part belongs, if it meets a pin of a large one.
pub fn signal_anchor_centroid(
    w: &SchematicWriter,
    gallery: &Gallery,
    items: &Vec<Item>,
    geoms: &Vec<SymbolGeometry>,
    inc: &Vec<(String, Vec<(usize, String)>)>,
    rails: &Vec<(String, Band)>,
    k: usize,
    rail_fallback: bool,
) -> (r: Option<Pt>)
    requires
        geoms@.len() == items@.len(),
        k < items@.len(),
    ensures
        r == served(
            w@,
            *gallery,
            items@,
            geoms@,
            incidence_v(inc@),
            reconcile::named(rails@),
            k as int,
            rail_fallback,
        ),
{
    let s = collect_met_ends(w, gallery, items, geoms, inc, rails, k, false);
    if s.len() == 0 && rail_fallback {
        mean_of(&collect_met_ends(w, gallery, items, geoms, inc, rails, k, true))
    } else {
        mean_of(&s)
    }
}

/// How far the first `n` parts are from where they belong, the small ones counted.
pub open spec fn strayed(
    w: WriterV,
    gallery: Gallery,
    items: Seq<Item>,
    geoms: Seq<SymbolGeometry>,
    inc: Seq<Use>,
    rails: Seq<(Seq<char>, Band)>,
    n: int,
) -> int
    decreases n,
{
    if n <= 0 {
        0
    } else {
        let r = strayed(w, gallery, items, geoms, inc, rails, n - 1);
        if geoms[n - 1].pins@.len() < 3 {
            match served(w, gallery, items, geoms, inc, rails, n - 1, true) {
                Some(c) => r + geom::mag(items[n - 1].at.x - c.x) + geom::mag(
                    items[n - 1].at.y - c.y,
                ),
                None => r,
            }
        } else {
            r
        }
    }
}

/// How far small parts are from where they belong, all together.
pub fn count_stray(
    w: &SchematicWriter,
    gallery: &Gallery,
    items: &Vec<Item>,
    geoms: &Vec<SymbolGeometry>,
    inc: &Vec<(String, Vec<(usize, String)>)>,
    rails: &Vec<(String, Band)>,
) -> (r: u128)
    requires
        geoms@.len() == items@.len(),
        items@.len() <= 0x1000_0000_0000_0000,
    ensures
        r == strayed(
            w@,
            *gallery,
            items@,
            geoms@,
            incidence_v(inc@),
            reconcile::named(rails@),
            items@.len() as int,
        ),
{
    let mut r: u128 = 0;
    let mut i: usize = 0;
    while i < items.len()
        invariant
            i <= items@.len(),
            items@.len() <= 0x1000_0000_0000_0000,
            geoms@.len() == items@.len(),
            r <= i * 0x4_0000_0000_0000_0000,
            r == strayed(
                w@,
                *gallery,
                items@,
                geoms@,
                incidence_v(inc@),
                reconcile::named(rails@),
                i as int,
            ),
        decreases items@.len() - i,
    {
        if geoms[i].pins.len() < 3 {
            match signal_anchor_centroid(w, gallery, items, geoms, inc, rails, i, true) {
                Some(c) => {
                    let dx: i128 = items[i].at.x as i128 - c.x as i128;
                    let dy: i128 = items[i].at.y as i128 - c.y as i128;
                    let ax: i128 = if dx < 0 { -dx } else { dx };
                    let ay: i128 = if dy < 0 { -dy } else { dy };
                    r = r + ax as u128 + ay as u128;
                },
                None => {},
            }
        }
        i += 1;
    }
    r
}

// ---------------------------------------------------------------- lining up with a pin
/// A part on its way to the line of a pin.
#[derive(Debug, Clone, Copy)]
pub struct Walk {
    pub at: Pt,
    /// Whether it moves level.
    pub level: bool,
    /// Where the line is.
    pub goal: i64,
    /// The cheapest place so far, and what it costs.
    pub best_at: Pt,
    pub best: u128,
    /// How many steps are left.
    pub left: u8,
}

/// How far along a point is.
pub open spec fn along(p: Pt, level: bool) -> i64 {
    if level {
        p.x
    } else {
        p.y
    }
}

/// Whether the line is one that a walk can reach.
pub open spec fn on_way(k: Walk) -> bool {
    -0x100_0000_0000 < k.goal < 0x100_0000_0000
}

/// The next place of a walk, one grid step nearer to the line and not beyond it.
pub open spec fn stepped(k: Walk) -> Option<Pt> {
    let a = along(k.at, k.level);
    let b = if k.goal > a {
        a + 127_000
    } else {
        a - 127_000
    };
    if k.left == 0 || a == k.goal || (k.goal > a && b > k.goal) || (k.goal < a && b < k.goal) {
        None
    } else if k.level {
        Some(Pt { x: b as i64, y: k.at.y })
    } else {
        Some(Pt { x: k.at.x, y: b as i64 })
    }
}

/// The next place of a walk, if there is one and no other part stands there.
pub open spec fn next_place(k: Walk, bodies: Seq<Body>, i: int) -> Option<Pt> {
    match stepped(k) {
        Some(p) => if exists|j: int|
            0 <= j < bodies.len() && j != i && plan_cost::bodies_overlap(
                bodies[i],
                p,
                #[trigger] bodies[j],
            ) {
            None
        } else {
            Some(p)
        },
        None => None,
    }
}

/// A walk after the cost of its next place is known: the place is kept as the best if it is cheaper
/// by more than the margin.
pub open spec fn walked(k: Walk, p: Pt, cost: u128) -> Walk {
    Walk {
        at: p,
        best_at: if cost + MARGIN < k.best {
            p
        } else {
            k.best_at
        },
        best: if cost + MARGIN < k.best {
            cost
        } else {
            k.best
        },
        left: (k.left - 1) as u8,
        ..k
    }
}

/// Starts a walk of a part toward the line of a pin, unless it stands on it: an upright part moves
/// level, another up or down.
pub fn start_walk(at: Pt, upright: bool, target: Pt, cost: u128) -> (r: Option<Walk>)
    ensures
        match r {
            Some(k) => k == (Walk {
                at,
                level: upright,
                goal: emit::snapped(along(target, upright) as int),
                best_at: at,
                best: cost,
                left: STEPS,
            }) && k.goal != along(at, upright) && on_way(k),
            None => emit::snapped(along(target, upright) as int) == along(at, upright),
        },
{
    let t = snap_sum(target.x as i128, target.y as i128);
    let goal = if upright { t.x } else { t.y };
    let own = if upright { at.x } else { at.y };
    if goal == own {
        None
    } else {
        Some(Walk { at, level: upright, goal, best_at: at, best: cost, left: STEPS })
    }
}

/// The place whose cost is asked for next, if the walk goes on.
pub fn walk_next(k: &Walk, bodies: &Vec<Body>, i: usize) -> (r: Option<Pt>)
    requires
        on_way(*k),
        i < bodies@.len(),
    ensures
        r == next_place(*k, bodies@, i as int),
{
    let a = if k.level { k.at.x } else { k.at.y };
    if k.left == 0 || a == k.goal {
        return None;
    }
    if k.goal > a {
        if k.goal as i128 - (a as i128) < 127_000 {
            return None;
        }
    } else if a as i128 - (k.goal as i128) < 127_000 {
        return None;
    }
    let b: i64 = if k.goal > a { a + 127_000 } else { a - 127_000 };
    let p = if k.level { Pt { x: b, y: k.at.y } } else { Pt { x: k.at.x, y: b } };
    if overlaps_any(bodies, i, p) {
        None
    } else {
        Some(p)
    }
}

/// Takes the cost of the place that was asked for and goes there.
pub fn walk_step(k: Walk, p: Pt, cost: u128) -> (r: Walk)
    requires
        k.left > 0,
    ensures
        r == walked(k, p, cost),
        r.best <= k.best,
        r.best_at != k.best_at ==> r.best < k.best,
{
    if cost < k.best && MARGIN < k.best - cost {
        Walk { at: p, best_at: p, best: cost, left: k.left - 1, ..k }
    } else {
        Walk { at: p, left: k.left - 1, ..k }
    }
}

} // verus!
