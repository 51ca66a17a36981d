//! Grid search for one wire between two pins.
//!
//! The search runs over cells of the schematic grid, each entered in one of four directions. A
//! path leaves and enters the pins along their outward directions and never enters a part; its
//! cost counts length, bends, clearance and crossings, and a path that would snake is refused.
use crate::geom;
use crate::geom::{abs_i, max_i, min_i, round_quotient, BBox, Dir, Pt, GRID};
use crate::symlib;
use std::collections::HashMap;
use vstd::prelude::*;

verus! {

broadcast use vstd::std_specs::hash::group_hash_axioms;

/// A cell of the schematic grid.
#[derive(Clone, Copy, Debug, PartialEq, Eq, Structural)]
pub struct Cell {
    pub x: i64,
    pub y: i64,
}

/// A cell with the direction in which a wire entered it: 0 right, 1 left, 2 down, 3 up.
#[derive(Clone, Copy, Debug, PartialEq, Eq, Structural)]
pub struct Node {
    pub x: i64,
    pub y: i64,
    pub d: u8,
}

/// An entry of the open list: a node, what it costs to get there, what speaks against the way
/// there at equal cost, and the direction in which the cell before it was reached.
#[derive(Clone, Copy, Debug, PartialEq, Eq, Structural)]
pub struct Item {
    pub cost: i64,
    pub extra: i64,
    pub x: i64,
    pub y: i64,
    pub d: u8,
    pub pd: u8,
}

pub open spec fn node_of(it: Item) -> Node {
    Node { x: it.x, y: it.y, d: it.d }
}

/// The node before the one of an entry.
pub open spec fn before_it(it: Item) -> Node {
    Node { x: (it.x - dx(it.d)) as i64, y: (it.y - dy(it.d)) as i64, d: it.pd }
}

/// What the search runs in: the two pin tips with their outward directions, the boxes no wire may
/// enter, the segments of the same net that may be joined (each with the position of its wire in
/// the net's list), and the segments of other nets.
#[derive(Debug)]
pub struct Arena {
    pub a: Cell,
    pub b: Cell,
    pub da: u8,
    pub db: u8,
    pub boxes: Vec<BBox>,
    pub joins: Vec<(usize, Pt, Pt)>,
    pub others: Vec<(Pt, Pt)>,
}

#[verifier::ext_equal]
pub struct ArenaV {
    pub a: Cell,
    pub b: Cell,
    pub da: u8,
    pub db: u8,
    pub boxes: Seq<BBox>,
    pub joins: Seq<(usize, Pt, Pt)>,
    pub others: Seq<(Pt, Pt)>,
}

impl View for Arena {
    type V = ArenaV;

    open spec fn view(&self) -> ArenaV {
        ArenaV {
            a: self.a,
            b: self.b,
            da: self.da,
            db: self.db,
            boxes: self.boxes@,
            joins: self.joins@,
            others: self.others@,
        }
    }
}

/// The grid line nearest to a coordinate.
pub open spec fn line(v: int) -> int {
    geom::round_div(v, GRID as int)
}

pub open spec fn cell_of_spec(p: Pt) -> Cell {
    Cell { x: line(p.x as int) as i64, y: line(p.y as int) as i64 }
}

pub open spec fn dx(d: u8) -> int {
    if d == 0 {
        1
    } else if d == 1 {
        -1
    } else {
        0
    }
}

pub open spec fn dy(d: u8) -> int {
    if d == 2 {
        1
    } else if d == 3 {
        -1
    } else {
        0
    }
}

pub open spec fn code_of(d: Dir) -> u8 {
    if d == (1i32, 0i32) {
        0u8
    } else if d == (-1i32, 0i32) {
        1u8
    } else if d == (0i32, 1i32) {
        2u8
    } else {
        3u8
    }
}

pub open spec fn opposite(d: u8) -> u8 {
    if d == 0 {
        1u8
    } else if d == 1 {
        0u8
    } else if d == 2 {
        3u8
    } else {
        2u8
    }
}

/// Half the side of the window that the search may use.
pub open spec fn cell_ok(c: Cell) -> bool {
    -0x110_0000 <= c.x <= 0x110_0000 && -0x110_0000 <= c.y <= 0x110_0000
}

pub open spec fn seg_ok(a: Pt, b: Pt) -> bool {
    geom::pt_ok(a) && geom::pt_ok(b)
}

impl ArenaV {
    pub open spec fn wf(&self) -> bool {
        &&& cell_ok(self.a)
        &&& cell_ok(self.b)
        &&& self.da < 4
        &&& self.db < 4
        &&& forall|i: int| 0 <= i < self.boxes.len() ==> geom::box_ok(#[trigger] self.boxes[i])
        &&& forall|i: int|
            0 <= i < self.joins.len() ==> seg_ok((#[trigger] self.joins[i]).1, self.joins[i].2)
        &&& forall|i: int|
            0 <= i < self.others.len() ==> seg_ok((#[trigger] self.others[i]).0, self.others[i].1)
    }

    pub open spec fn x0(&self) -> int {
        geom::lo(self.a.x as int, self.b.x as int) - 12
    }

    pub open spec fn x1(&self) -> int {
        geom::hi(self.a.x as int, self.b.x as int) + 12
    }

    pub open spec fn y0(&self) -> int {
        geom::lo(self.a.y as int, self.b.y as int) - 12
    }

    pub open spec fn y1(&self) -> int {
        geom::hi(self.a.y as int, self.b.y as int) + 12
    }

    /// The search stays within twelve cells around the two tips.
    pub open spec fn in_window(&self, x: int, y: int) -> bool {
        self.x0() <= x <= self.x1() && self.y0() <= y <= self.y1()
    }

    /// Number of cells with a direction.
    pub open spec fn size(&self) -> int {
        (self.x1() - self.x0() + 1) * (self.y1() - self.y0() + 1) * 4
    }

    pub open spec fn key(&self, x: int, y: int, d: u8) -> u64 {
        (((x - self.x0()) * (self.y1() - self.y0() + 1) + (y - self.y0())) * 4 + d) as u64
    }

    /// The cell lies at least three tenths of a grid step inside a box.
    pub open spec fn blocked(&self, x: int, y: int) -> bool {
        self.in_window(x, y) && exists|i: int|
            0 <= i < self.boxes.len() && cell_inside(#[trigger] self.boxes[i], x, y)
    }

    /// One of the four cells outward from a pin tip, the tip included.
    pub open spec fn stub_cell(&self, x: int, y: int) -> bool {
        on_stub(self.a, self.da, x, y) || on_stub(self.b, self.db, x, y)
    }

    /// A vertical (`v`) or horizontal wire of the same net that may be joined covers the cell.
    pub open spec fn join_at(&self, x: int, y: int, v: bool) -> bool {
        exists|i: int|
            0 <= i < self.joins.len() && seg_over(
                (#[trigger] self.joins[i]).1,
                self.joins[i].2,
                x,
                y,
                v,
            )
    }

    /// The last listed wire of the same net that covers the cell.
    pub open spec fn owner_at(&self, x: int, y: int, n: int) -> Option<usize>
        decreases n,
    {
        if n <= 0 {
            None
        } else if seg_over(self.joins[n - 1].1, self.joins[n - 1].2, x, y, true) || seg_over(
            self.joins[n - 1].1,
            self.joins[n - 1].2,
            x,
            y,
            false,
        ) {
            Some(self.joins[n - 1].0)
        } else {
            self.owner_at(x, y, n - 1)
        }
    }

    /// A vertical (`v`) or horizontal wire of another net covers the cell.
    pub open spec fn wire_at(&self, x: int, y: int, v: bool) -> bool {
        exists|i: int|
            0 <= i < self.others.len() && seg_over(
                (#[trigger] self.others[i]).0,
                self.others[i].1,
                x,
                y,
                v,
            )
    }

    /// Some neighbour of the cell is blocked.
    pub open spec fn hugging(&self, x: int, y: int) -> bool {
        self.blocked(x + 1, y) || self.blocked(x - 1, y) || self.blocked(x, y + 1) || self.blocked(
            x,
            y - 1,
        )
    }

    /// Cost of the step from a node in direction `nd`, or `None` where the step is not allowed: no
    /// turning back, no one-cell stub at either tip, nothing outside the window or through a part,
    /// and no running along a wire of another net. A step costs one, a bend five more, a crossing
    /// ten more.
    pub open spec fn step_cost(&self, it: Node, nd: u8) -> Option<int> {
        let (nx, ny) = (it.x + dx(nd), it.y + dy(nd));
        let turn = nd != it.d;
        let crossed = self.wire_at(nx, ny, true) || self.wire_at(nx, ny, false);
        if nd == opposite(it.d) {
            None
        } else if nd != self.da && it.x == self.a.x + dx(self.da) && it.y == self.a.y + dy(self.da) {
            None
        } else if nd != opposite(self.db) && nx == self.b.x + dx(self.db) && ny == self.b.y + dy(
            self.db,
        ) {
            None
        } else if !self.in_window(nx, ny) {
            None
        } else if self.blocked(nx, ny) && !self.stub_cell(nx, ny) {
            None
        } else if crossed && self.wire_at(nx, ny, dx(nd) == 0) && !(nx == self.b.x && ny
            == self.b.y) {
            None
        } else {
            Some(
                1 + (if turn { 5int } else { 0 }) + (if crossed { 10int } else { 0 }),
            )
        }
    }

    /// What speaks against a step among ways of equal cost: a bend close to a tip, and running
    /// along a part.
    pub open spec fn step_extra(&self, it: Node, nd: u8) -> int {
        let (nx, ny) = (it.x + dx(nd), it.y + dy(nd));
        let turn = nd != it.d;
        let near = cells_apart(it.x as int, it.y as int, self.a) < 4 || cells_apart(
            it.x as int,
            it.y as int,
            self.b,
        ) < 4;
        (if turn && near { 4int } else { 0 }) + (if !self.stub_cell(nx, ny) && self.hugging(nx, ny) {
            2int
        } else {
            0
        })
    }

    /// Whether a node ends the search: at the far tip, or where the wire meets a joinable wire of
    /// its own net at a right angle.
    pub open spec fn ends_at(&self, it: Node) -> bool {
        ||| it.x == self.b.x && it.y == self.b.y
        ||| !(it.x == self.a.x && it.y == self.a.y) && (self.join_at(it.x as int, it.y as int, true)
            || self.join_at(it.x as int, it.y as int, false)) && !self.join_at(
            it.x as int,
            it.y as int,
            dx(it.d) == 0,
        )
    }

    /// Beyond this cost a node is not expanded (twice the limit).
    pub open spec fn too_far(&self, cost: int) -> bool {
        2 * cost > 5 * (geom::mag(self.a.x - self.b.x) + geom::mag(self.a.y - self.b.y)) + 120
    }
}

pub open spec fn cells_apart(x: int, y: int, c: Cell) -> int {
    geom::mag(x - c.x) + geom::mag(y - c.y)
}

pub open spec fn cell_inside(b: BBox, x: int, y: int) -> bool {
    b.x0 + 38_100 <= x * GRID <= b.x1 - 38_100 && b.y0 + 38_100 <= y * GRID <= b.y1 - 38_100
}

pub open spec fn on_stub(c: Cell, d: u8, x: int, y: int) -> bool {
    exists|k: int| 0 <= k < 4 && #[trigger] (c.x + dx(d) * k) == x && c.y + dy(d) * k == y
}

/// The segment is vertical (`v`) or not, and covers the cell.
pub open spec fn seg_over(p: Pt, q: Pt, x: int, y: int, v: bool) -> bool {
    if p.x == q.x {
        v && x == line(p.x as int) && line(geom::lo(p.y as int, q.y as int)) <= y <= line(
            geom::hi(p.y as int, q.y as int),
        )
    } else {
        !v && y == line(p.y as int) && line(geom::lo(p.x as int, q.x as int)) <= x <= line(
            geom::hi(p.x as int, q.x as int),
        )
    }
}

/// Numeric rank of a direction when entries of equal cost and cell are compared.
pub open spec fn dir_rank(d: u8) -> int {
    if d == 1 {
        0
    } else if d == 3 {
        1
    } else if d == 2 {
        2
    } else {
        3
    }
}

/// `p` is taken from the open list after `q`: it costs more or, at equal cost, more speaks against
/// it, or its cell or its direction is larger.
pub open spec fn later(p: Item, q: Item) -> bool {
    ||| p.cost > q.cost
    ||| p.cost == q.cost && p.extra > q.extra
    ||| p.cost == q.cost && p.extra == q.extra && (p.x > q.x || (p.x == q.x && (p.y > q.y || (p.y
        == q.y && dir_rank(p.d) > dir_rank(q.d)))))
}

/// Where an item goes in the first `pos` entries of the open list, the next to be taken last.
pub open spec fn place(q: Seq<Item>, it: Item, pos: int) -> int
    decreases pos,
{
    if pos <= 0 {
        0
    } else if later(q[pos - 1], it) {
        pos
    } else {
        place(q, it, pos - 1)
    }
}

pub open spec fn enqueue(q: Seq<Item>, it: Item) -> Seq<Item> {
    q.insert(place(q, it, q.len() as int), it)
}

/// State of the search.
pub struct SearchV {
    pub open: Seq<Item>,
    pub best: Map<u64, i64>,
    pub prev: Map<u64, Node>,
}

/// The neighbours of `it` from direction `d` on are opened.
pub open spec fn expand(e: ArenaV, it: Item, d: int, s: SearchV) -> SearchV
    decreases 4 - d,
{
    if d < 0 || d >= 4 {
        s
    } else {
        let nd = d as u8;
        let (nx, ny) = (it.x + dx(nd), it.y + dy(nd));
        let k = e.key(nx, ny, nd);
        match e.step_cost(node_of(it), nd) {
            Some(c) if !s.best.contains_key(k) => expand(
                e,
                it,
                d + 1,
                SearchV {
                    open: enqueue(
                        s.open,
                        Item {
                            cost: (it.cost + c) as i64,
                            extra: (it.extra + e.step_extra(node_of(it), nd)) as i64,
                            x: nx as i64,
                            y: ny as i64,
                            d: nd,
                            pd: it.d,
                        },
                    ),
                    best: s.best,
                    prev: s.prev,
                },
            ),
            _ => expand(e, it, d + 1, s),
        }
    }
}

/// The node that ends the search and the predecessors noted on the way; `left` nodes may still be
/// settled.
pub open spec fn search(e: ArenaV, s: SearchV, left: int) -> (Option<Node>, Map<u64, Node>)
    decreases left, s.open.len(),
{
    if s.open.len() == 0 {
        (None, s.prev)
    } else {
        let it = s.open.last();
        let rest = SearchV { open: s.open.drop_last(), ..s };
        let k = e.key(it.x as int, it.y as int, it.d);
        if s.best.contains_key(k) {
            search(e, rest, left)
        } else if left <= 0 {
            (None, s.prev)
        } else {
            let done = SearchV {
                open: rest.open,
                best: rest.best.insert(k, it.cost),
                prev: rest.prev.insert(k, before_it(it)),
            };
            if e.ends_at(node_of(it)) {
                (Some(node_of(it)), done.prev)
            } else if e.too_far(it.cost as int) {
                search(e, done, left - 1)
            } else {
                search(e, expand(e, it, 0, done), left - 1)
            }
        }
    }
}

/// The cells from `k` back to the start, at most `n` of them.
pub open spec fn trace(e: ArenaV, prev: Map<u64, Node>, k: Node, n: int) -> Seq<Cell>
    decreases n,
{
    let start = k.x == e.a.x && k.y == e.a.y && k.d == e.da;
    let key = e.key(k.x as int, k.y as int, k.d);
    if n <= 0 || !(prev.contains_key(key) || start) {
        Seq::empty()
    } else if start {
        seq![Cell { x: k.x, y: k.y }]
    } else {
        trace(e, prev, prev[key], n - 1).push(Cell { x: k.x, y: k.y })
    }
}

/// Three cells on one horizontal or vertical line.
pub open spec fn in_line(u: Cell, v: Cell, w: Cell) -> bool {
    (u.x == v.x && v.x == w.x) || (u.y == v.y && v.y == w.y)
}

/// The corners among the first `i` cells of a path, its first cell included.
pub open spec fn corners(p: Seq<Cell>, i: int) -> Seq<Cell>
    decreases i,
{
    if i <= 0 || p.len() == 0 {
        Seq::empty()
    } else if i == 1 {
        seq![p[0]]
    } else if i < p.len() && in_line(p[i - 2], p[i - 1], p[i]) {
        corners(p, i - 1)
    } else {
        corners(p, i - 1).push(p[i - 1])
    }
}

/// The path with its straight runs reduced to their ends. A path of one cell is written twice.
pub open spec fn compressed(p: Seq<Cell>) -> Seq<Cell> {
    if p.len() <= 1 {
        p + p
    } else {
        corners(p, p.len() as int)
    }
}

/// Total length of the first `n` segments.
pub open spec fn path_len(p: Seq<Cell>, n: int) -> int
    decreases n,
{
    if n <= 0 {
        0
    } else {
        path_len(p, n - 1) + geom::mag(p[n - 1].x - p[n].x) + geom::mag(p[n - 1].y - p[n].y)
    }
}

/// Wires of other nets met strictly between `from` and `to` on a line: `v` tells which kind.
pub open spec fn met(e: ArenaV, fixed: int, from: int, to: int, horizontal: bool) -> int
    decreases to - from,
{
    if from >= to {
        0
    } else {
        met(e, fixed, from, to - 1, horizontal) + (if horizontal {
            if e.wire_at(to - 1, fixed, true) { 1int } else { 0 }
        } else {
            if e.wire_at(fixed, to - 1, false) { 1int } else { 0 }
        })
    }
}

/// Crossings of the first `n` segments with wires of other nets.
pub open spec fn crossings(e: ArenaV, p: Seq<Cell>, n: int) -> int
    decreases n,
{
    if n <= 0 {
        0
    } else {
        let (u, v) = (p[n - 1], p[n]);
        crossings(e, p, n - 1) + (if u.y == v.y {
            met(
                e,
                u.y as int,
                geom::lo(u.x as int, v.x as int) + 1,
                geom::hi(u.x as int, v.x as int),
                true,
            )
        } else {
            met(
                e,
                u.x as int,
                geom::lo(u.y as int, v.y as int) + 1,
                geom::hi(u.y as int, v.y as int),
                false,
            )
        })
    }
}

/// How far a path departs from a straight wire: its detour, six for each bend and twenty for each
/// crossing.
pub open spec fn shape(e: ArenaV, p: Seq<Cell>) -> int {
    let n = p.len() - 1;
    path_len(p, n) - (geom::mag(p.last().x - e.a.x) + geom::mag(p.last().y - e.a.y)) + 6 * (n - 1)
        + 20 * crossings(e, p, n)
}

pub open spec fn start_state(e: ArenaV) -> SearchV {
    SearchV {
        open: seq![Item { cost: 0, extra: 0, x: e.a.x, y: e.a.y, d: e.da, pd: e.da }],
        best: Map::empty(),
        prev: Map::empty(),
    }
}

pub open spec fn cells_to_path(p: Seq<Cell>) -> Seq<Pt> {
    Seq::new(p.len(), |i: int| Pt { x: (p[i].x * GRID) as i64, y: (p[i].y * GRID) as i64 })
}

/// The wire found, and the joined wire of its own net where it ended on one. With `simple_only`
/// only a nearly straight wire all the way to the far tip counts.
pub open spec fn found_wire(e: ArenaV, simple_only: bool) -> Option<(Seq<Pt>, Option<usize>)> {
    let r = search(e, start_state(e), e.size());
    match r.0 {
        None => None,
        Some(k) => {
            let at_b = k.x == e.b.x && k.y == e.b.y;
            let cells = trace(e, r.1, k, e.size());
            let p = compressed(cells);
            let joined = if at_b {
                None
            } else {
                e.owner_at(k.x as int, k.y as int, e.joins.len() as int)
            };
            if (simple_only && !at_b) || cells.len() == 0 || shape(e, p) > (if simple_only {
                8int
            } else {
                30
            }) {
                None
            } else {
                Some((cells_to_path(p), joined))
            }
        },
    }
}

pub fn grid_line(v: i64) -> (r: i64)
    requires
        geom::in_range(v as int),
    ensures
        r == line(v as int),
        -0x1000_0000 <= r <= 0x1000_0000,
{
    let r: i64 = round_quotient(v, GRID);
    proof {
        let q = v as int / 127_000;
        assert(v as int == 127_000 * q + v as int % 127_000);
    }
    r
}

pub fn cell_of(p: Pt) -> (c: Cell)
    requires
        symlib::tip_pt(p),
    ensures
        c == cell_of_spec(p),
        cell_ok(c),
{
    proof {
        let q = p.x as int / 127_000;
        assert(p.x as int == 127_000 * q + p.x as int % 127_000);
        let r = p.y as int / 127_000;
        assert(p.y as int == 127_000 * r + p.y as int % 127_000);
    }
    Cell { x: grid_line(p.x), y: grid_line(p.y) }
}

pub fn dir_code(d: Dir) -> (r: u8)
    ensures
        r == code_of(d),
        r < 4,
{
    if d.0 == 1 && d.1 == 0 {
        0
    } else if d.0 == -1 && d.1 == 0 {
        1
    } else if d.0 == 0 && d.1 == 1 {
        2
    } else {
        3
    }
}

fn ex(d: u8) -> (r: i64)
    ensures
        r == dx(d),
        -1 <= r <= 1,
{
    if d == 0 {
        1
    } else if d == 1 {
        -1
    } else {
        0
    }
}

fn ey(d: u8) -> (r: i64)
    ensures
        r == dy(d),
        -1 <= r <= 1,
{
    if d == 2 {
        1
    } else if d == 3 {
        -1
    } else {
        0
    }
}

fn reverse(d: u8) -> (r: u8)
    ensures
        r == opposite(d),
{
    if d == 0 {
        1
    } else if d == 1 {
        0
    } else if d == 2 {
        3
    } else {
        2
    }
}

fn over(p: Pt, q: Pt, x: i64, y: i64, v: bool) -> (r: bool)
    requires
        seg_ok(p, q),
    ensures
        r == seg_over(p, q, x as int, y as int, v),
{
    if p.x == q.x {
        v && x == grid_line(p.x) && grid_line(min_i(p.y, q.y)) <= y && y <= grid_line(
            max_i(p.y, q.y),
        )
    } else {
        !v && y == grid_line(p.y) && grid_line(min_i(p.x, q.x)) <= x && x <= grid_line(
            max_i(p.x, q.x),
        )
    }
}

fn stub(c: Cell, d: u8, x: i64, y: i64) -> (r: bool)
    requires
        cell_ok(c),
        d < 4,
    ensures
        r == on_stub(c, d, x as int, y as int),
{
    let (u, v): (i64, i64) = (ex(d), ey(d));
    let mut k: i64 = 0;
    while k < 4
        invariant
            0 <= k <= 4,
            cell_ok(c),
            u == dx(d),
            v == dy(d),
            -1 <= u <= 1,
            -1 <= v <= 1,
            forall|j: int|
                0 <= j < k ==> !(#[trigger] (c.x + dx(d) * j) == x && c.y + dy(d) * j == y),
        decreases 4 - k,
    {
        proof {
            assert(u * k == (if u == 1 { k as int } else if u == -1 { -k } else { 0 }))
                by (nonlinear_arith)
                requires
                    -1 <= u <= 1,
            ;
            assert(v * k == (if v == 1 { k as int } else if v == -1 { -k } else { 0 }))
                by (nonlinear_arith)
                requires
                    -1 <= v <= 1,
            ;
        }
        if c.x + u * k == x && c.y + v * k == y {
            assert(c.x + dx(d) * (k as int) == x);
            return true;
        }
        k += 1;
    }
    false
}

fn is_later(p: Item, q: Item) -> (r: bool)
    ensures
        r == later(p, q),
{
    let rp: u8 = if p.d == 1 { 0 } else if p.d == 3 { 1 } else if p.d == 2 { 2 } else { 3 };
    let rq: u8 = if q.d == 1 { 0 } else if q.d == 3 { 1 } else if q.d == 2 { 2 } else { 3 };
    p.cost > q.cost || (p.cost == q.cost && p.extra > q.extra) || (p.cost == q.cost && p.extra
        == q.extra && (p.x > q.x || (p.x == q.x && (p.y > q.y || (p.y == q.y && rp > rq)))))
}

/// A node of the window with a bounded cost, reached from within the window.
pub open spec fn item_ok(e: ArenaV, it: Item) -> bool {
    &&& e.in_window(it.x as int, it.y as int)
    &&& e.in_window(it.x - dx(it.d), it.y - dy(it.d))
    &&& it.d < 4
    &&& it.pd < 4
    &&& 0 <= it.cost <= 0x1_0000_0000
    &&& 0 <= it.extra <= 6 * it.cost
}

pub open spec fn open_ok(e: ArenaV, q: Seq<Item>) -> bool {
    forall|i: int| 0 <= i < q.len() ==> item_ok(e, #[trigger] q[i])
}

impl Arena {
    fn left_edge(&self) -> (r: i64)
        requires
            self@.wf(),
        ensures
            r == self@.x0(),
    {
        min_i(self.a.x, self.b.x) - 12
    }

    fn right_edge(&self) -> (r: i64)
        requires
            self@.wf(),
        ensures
            r == self@.x1(),
    {
        max_i(self.a.x, self.b.x) + 12
    }

    fn top_edge(&self) -> (r: i64)
        requires
            self@.wf(),
        ensures
            r == self@.y0(),
    {
        min_i(self.a.y, self.b.y) - 12
    }

    fn bottom_edge(&self) -> (r: i64)
        requires
            self@.wf(),
        ensures
            r == self@.y1(),
    {
        max_i(self.a.y, self.b.y) + 12
    }

    fn inside(&self, x: i64, y: i64) -> (r: bool)
        requires
            self@.wf(),
        ensures
            r == self@.in_window(x as int, y as int),
    {
        self.left_edge() <= x && x <= self.right_edge() && self.top_edge() <= y && y
            <= self.bottom_edge()
    }

    fn node_key(&self, x: i64, y: i64, d: u8) -> (k: u64)
        requires
            self@.wf(),
            self@.in_window(x as int, y as int),
            d < 4,
        ensures
            k == self@.key(x as int, y as int, d),
    {
        let w: i64 = x - self.left_edge();
        let h: i64 = self.bottom_edge() - self.top_edge() + 1;
        let v: i64 = y - self.top_edge();
        proof {
            assert(0 <= w * h <= 0x1000_0000 * 0x1000_0000) by (nonlinear_arith)
                requires
                    0 <= w <= 0x1000_0000,
                    0 <= h <= 0x1000_0000,
            ;
        }
        ((w * h + v) * 4 + d as i64) as u64
    }

    fn count(&self) -> (n: i64)
        requires
            self@.wf(),
        ensures
            n == self@.size(),
            n >= 0,
    {
        let w: i64 = self.right_edge() - self.left_edge() + 1;
        let h: i64 = self.bottom_edge() - self.top_edge() + 1;
        proof {
            assert(0 <= w * h <= 0x1000_0000 * 0x1000_0000) by (nonlinear_arith)
                requires
                    0 <= w <= 0x1000_0000,
                    0 <= h <= 0x1000_0000,
            ;
        }
        w * h * 4
    }

    fn is_blocked(&self, x: i64, y: i64) -> (r: bool)
        requires
            self@.wf(),
            -0x1000_0000 <= x <= 0x1000_0000,
            -0x1000_0000 <= y <= 0x1000_0000,
        ensures
            r == self@.blocked(x as int, y as int),
    {
        if !self.inside(x, y) {
            return false;
        }
        let mut i: usize = 0;
        while i < self.boxes.len()
            invariant
                i <= self.boxes@.len(),
                self@.wf(),
                self@.in_window(x as int, y as int),
                -0x1000_0000 <= x <= 0x1000_0000,
                -0x1000_0000 <= y <= 0x1000_0000,
                forall|j: int|
                    0 <= j < i ==> !cell_inside(#[trigger] self@.boxes[j], x as int, y as int),
            decreases self.boxes@.len() - i,
        {
            let b: BBox = self.boxes[i];
            assert(self@.boxes[i as int] == b);
            if b.x0 + 38_100 <= x * GRID && x * GRID <= b.x1 - 38_100 && b.y0 + 38_100 <= y * GRID
                && y * GRID <= b.y1 - 38_100 {
                assert(cell_inside(self@.boxes[i as int], x as int, y as int));
                return true;
            }
            i += 1;
        }
        false
    }

    fn is_stub(&self, x: i64, y: i64) -> (r: bool)
        requires
            self@.wf(),
        ensures
            r == self@.stub_cell(x as int, y as int),
    {
        stub(self.a, self.da, x, y) || stub(self.b, self.db, x, y)
    }

    fn has_join(&self, x: i64, y: i64, v: bool) -> (r: bool)
        requires
            self@.wf(),
        ensures
            r == self@.join_at(x as int, y as int, v),
    {
        let mut i: usize = 0;
        while i < self.joins.len()
            invariant
                i <= self.joins@.len(),
                self@.wf(),
                forall|j: int|
                    0 <= j < i ==> !seg_over(
                        (#[trigger] self@.joins[j]).1,
                        self@.joins[j].2,
                        x as int,
                        y as int,
                        v,
                    ),
            decreases self.joins@.len() - i,
        {
            let j: (usize, Pt, Pt) = self.joins[i];
            assert(self@.joins[i as int] == j);
            if over(j.1, j.2, x, y, v) {
                return true;
            }
            i += 1;
        }
        false
    }

    fn owner(&self, x: i64, y: i64) -> (r: Option<usize>)
        requires
            self@.wf(),
        ensures
            r == self@.owner_at(x as int, y as int, self@.joins.len() as int),
    {
        let mut n: usize = self.joins.len();
        while n > 0
            invariant
                n <= self.joins@.len(),
                self@.wf(),
                self@.owner_at(x as int, y as int, self@.joins.len() as int) == self@.owner_at(
                    x as int,
                    y as int,
                    n as int,
                ),
            decreases n,
        {
            let j: (usize, Pt, Pt) = self.joins[n - 1];
            assert(self@.joins[n - 1] == j);
            if over(j.1, j.2, x, y, true) || over(j.1, j.2, x, y, false) {
                return Some(j.0);
            }
            n -= 1;
        }
        None
    }

    fn has_wire(&self, x: i64, y: i64, v: bool) -> (r: bool)
        requires
            self@.wf(),
        ensures
            r == self@.wire_at(x as int, y as int, v),
    {
        let mut i: usize = 0;
        while i < self.others.len()
            invariant
                i <= self.others@.len(),
                self@.wf(),
                forall|j: int|
                    0 <= j < i ==> !seg_over(
                        (#[trigger] self@.others[j]).0,
                        self@.others[j].1,
                        x as int,
                        y as int,
                        v,
                    ),
            decreases self.others@.len() - i,
        {
            let s: (Pt, Pt) = self.others[i];
            assert(self@.others[i as int] == s);
            if over(s.0, s.1, x, y, v) {
                return true;
            }
            i += 1;
        }
        false
    }

    #[verifier::rlimit(30)]
    fn step(&self, it: Node, nd: u8) -> (r: Option<(i64, i64)>)
        requires
            self@.wf(),
            self@.in_window(it.x as int, it.y as int),
            it.d < 4,
            nd < 4,
        ensures
            match r {
                Some(c) => self@.step_cost(it, nd) == Some(c.0 as int) && c.1
                    == self@.step_extra(it, nd) && 1 <= c.0 <= 16 && 0 <= c.1 <= 6
                    && self@.in_window(it.x + dx(nd), it.y + dy(nd)),
                None => self@.step_cost(it, nd) is None,
            },
    {
        let nx: i64 = it.x + ex(nd);
        let ny: i64 = it.y + ey(nd);
        if nd == reverse(it.d) {
            return None;
        }
        if nd != self.da && it.x == self.a.x + ex(self.da) && it.y == self.a.y + ey(self.da) {
            return None;
        }
        if nd != reverse(self.db) && nx == self.b.x + ex(self.db) && ny == self.b.y + ey(self.db) {
            return None;
        }
        if !self.inside(nx, ny) {
            return None;
        }
        let stub = self.is_stub(nx, ny);
        if self.is_blocked(nx, ny) && !stub {
            return None;
        }
        let v = self.has_wire(nx, ny, true);
        let h = self.has_wire(nx, ny, false);
        let along = if ex(nd) == 0 { v } else { h };
        if (v || h) && along && !(nx == self.b.x && ny == self.b.y) {
            return None;
        }
        let turn = nd != it.d;
        let near = abs_i(it.x - self.a.x) + abs_i(it.y - self.a.y) < 4 || abs_i(it.x - self.b.x)
            + abs_i(it.y - self.b.y) < 4;
        let mut c: i64 = 1;
        let mut x: i64 = 0;
        if turn {
            c += 5;
            if near {
                x += 4;
            }
        }
        if !stub && (self.is_blocked(nx + 1, ny) || self.is_blocked(nx - 1, ny) || self.is_blocked(
            nx,
            ny + 1,
        ) || self.is_blocked(nx, ny - 1)) {
            x += 2;
        }
        if v || h {
            c += 10;
        }
        Some((c, x))
    }

    fn at_end(&self, it: Item) -> (r: bool)
        requires
            self@.wf(),
        ensures
            r == self@.ends_at(node_of(it)),
    {
        if it.x == self.b.x && it.y == self.b.y {
            return true;
        }
        if it.x == self.a.x && it.y == self.a.y {
            return false;
        }
        let v = self.has_join(it.x, it.y, true);
        let h = self.has_join(it.x, it.y, false);
        let mine = if ex(it.d) == 0 { v } else { h };
        (v || h) && !mine
    }
}

fn insert_item(q: &mut Vec<Item>, it: Item)
    ensures
        final(q)@ == enqueue(old(q)@, it),
{
    let mut pos: usize = q.len();
    let mut going = true;
    let ghost q0 = q@;
    while going && pos > 0
        invariant
            pos <= q@.len(),
            q@ == q0,
            going ==> place(q0, it, q0.len() as int) == place(q0, it, pos as int),
            !going ==> place(q0, it, q0.len() as int) == pos,
        decreases (if going { 1int } else { 0 }), pos,
    {
        if is_later(q[pos - 1], it) {
            going = false;
        } else {
            pos -= 1;
        }
    }
    q.insert(pos, it);
}

proof fn lemma_place(q: Seq<Item>, it: Item, pos: int)
    requires
        0 <= pos <= q.len(),
    ensures
        0 <= place(q, it, pos) <= pos,
    decreases pos,
{
    if pos > 0 && !later(q[pos - 1], it) {
        lemma_place(q, it, pos - 1);
    }
}

proof fn lemma_open_ok(e: ArenaV, q: Seq<Item>, it: Item)
    requires
        open_ok(e, q),
        item_ok(e, it),
    ensures
        open_ok(e, enqueue(q, it)),
{
    let p = place(q, it, q.len() as int);
    lemma_place(q, it, q.len() as int);
    let r = enqueue(q, it);
    assert forall|i: int| 0 <= i < r.len() implies item_ok(e, #[trigger] r[i]) by {
        if i < p {
            assert(r[i] == q[i]);
        } else if i > p {
            assert(r[i] == q[i - 1]);
        }
    }
}

pub open spec fn nodes_ok(e: ArenaV, m: Map<u64, Node>) -> bool {
    forall|k: u64| #[trigger] m.contains_key(k) ==> e.in_window(
        m[k].x as int,
        m[k].y as int,
    ) && m[k].d < 4
}

impl Arena {
    fn run(&self) -> (r: (Option<Node>, HashMap<u64, Node>))
        requires
            self@.wf(),
        ensures
            (r.0, r.1@) == search(self@, start_state(self@), self@.size()),
            nodes_ok(self@, r.1@),
            r.0 is Some ==> self@.in_window(r.0->0.x as int, r.0->0.y as int) && r.0->0.d < 4,
    {
        let ghost e = self@;
        let mut q: Vec<Item> = Vec::new();
        q.push(Item { cost: 0, extra: 0, x: self.a.x, y: self.a.y, d: self.da, pd: self.da });
        let mut best: HashMap<u64, i64> = HashMap::new();
        let mut prev: HashMap<u64, Node> = HashMap::new();
        let mut left: i64 = self.count();
        let reach: i64 = 5 * (abs_i(self.a.x - self.b.x) + abs_i(self.a.y - self.b.y)) + 120;
        let ghost goal = search(e, start_state(e), e.size());
        proof {
            assert(q@ =~= start_state(e).open);
            assert(best@ =~= start_state(e).best);
            assert(prev@ =~= start_state(e).prev);
        }
        while q.len() > 0
            invariant
                e == self@,
                e.wf(),
                left >= 0,
                goal == search(e, start_state(e), e.size()),
                open_ok(e, q@),
                nodes_ok(e, prev@),
                reach == 5 * (geom::mag(e.a.x - e.b.x) + geom::mag(e.a.y - e.b.y)) + 120,
                goal == search(
                    e,
                    SearchV { open: q@, best: best@, prev: prev@ },
                    left as int,
                ),
            decreases left, q@.len(),
        {
            let ghost s0 = SearchV { open: q@, best: best@, prev: prev@ };
            let it: Item = q[q.len() - 1];
            assert(item_ok(e, s0.open.last()));
            let _ = q.pop();
            assert(q@ =~= s0.open.drop_last());
            assert(open_ok(e, q@)) by {
                assert forall|i: int| 0 <= i < q@.len() implies item_ok(e, #[trigger] q@[i]) by {
                    assert(q@[i] == s0.open[i]);
                }
            }
            let k: u64 = self.node_key(it.x, it.y, it.d);
            if best.contains_key(&k) {
                continue ;
            }
            if left == 0 {
                return (None, prev);
            }
            best.insert(k, it.cost);
            let from = Node { x: it.x - ex(it.d), y: it.y - ey(it.d), d: it.pd };
            assert(from == before_it(it));
            prev.insert(k, from);
            left -= 1;
            if self.at_end(it) {
                return (Some(Node { x: it.x, y: it.y, d: it.d }), prev);
            }
            if 2 * it.cost > reach {
                continue ;
            }
            let ghost s1 = SearchV { open: q@, best: best@, prev: prev@ };
            let mut d: u8 = 0;
            while d < 4
                invariant
                    e == self@,
                    e.wf(),
                    d <= 4,
                    item_ok(e, it),
                    2 * it.cost <= reach,
                    reach <= 0x8000_0000,
                    open_ok(e, q@),
                    nodes_ok(e, prev@),
                    expand(e, it, 0, s1) == expand(
                        e,
                        it,
                        d as int,
                        SearchV { open: q@, best: best@, prev: prev@ },
                    ),
                decreases 4 - d,
            {
                match self.step(Node { x: it.x, y: it.y, d: it.d }, d) {
                    Some(c) => {
                        let nx: i64 = it.x + ex(d);
                        let ny: i64 = it.y + ey(d);
                        let nk: u64 = self.node_key(nx, ny, d);
                        if !best.contains_key(&nk) {
                            let next = Item {
                                cost: it.cost + c.0,
                                extra: it.extra + c.1,
                                x: nx,
                                y: ny,
                                d,
                                pd: it.d,
                            };
                            proof {
                                lemma_open_ok(e, q@, next);
                            }
                            insert_item(&mut q, next);
                        }
                    },
                    None => {},
                }
                d += 1;
            }
        }
        (None, prev)
    }
}

/// Every point lies where wires can be.
pub open spec fn wire_path(p: Seq<Pt>) -> bool {
    forall|i: int| 0 <= i < p.len() ==> symlib::wire_pt(#[trigger] p[i])
}

proof fn lemma_owner(e: ArenaV, x: int, y: int, n: int)
    requires
        0 <= n <= e.joins.len(),
    ensures
        e.owner_at(x, y, n) matches Some(j) ==> exists|i: int|
            0 <= i < e.joins.len() && (#[trigger] e.joins[i]).0 == j,
    decreases n,
{
    if n > 0 {
        assert(e.joins[n - 1].0 == e.joins[n - 1].0);
        lemma_owner(e, x, y, n - 1);
    }
}

pub open spec fn cells_ok(p: Seq<Cell>) -> bool {
    forall|i: int|
        0 <= i < p.len() ==> -0x110_0010 <= (#[trigger] p[i]).x <= 0x110_0010 && -0x110_0010
            <= p[i].y <= 0x110_0010
}

fn reversed(v: &Vec<Cell>) -> (r: Vec<Cell>)
    ensures
        r@ == v@.reverse(),
{
    let mut r: Vec<Cell> = Vec::new();
    let mut n: usize = v.len();
    while n > 0
        invariant
            n <= v@.len(),
            r@.len() == v@.len() - n,
            forall|i: int| 0 <= i < r@.len() ==> r@[i] == v@[v@.len() - 1 - i],
        decreases n,
    {
        n -= 1;
        r.push(v[n]);
    }
    assert(r@ =~= v@.reverse());
    r
}

/// The corners of a path of cells.
fn compress(p: &Vec<Cell>) -> (r: Vec<Cell>)
    requires
        p@.len() > 0,
        cells_ok(p@),
    ensures
        r@ == compressed(p@),
        r@.len() >= 2,
        cells_ok(r@),
{
    let mut r: Vec<Cell> = Vec::new();
    if p.len() == 1 {
        r.push(p[0]);
        r.push(p[0]);
        assert(r@ =~= p@ + p@);
        return r;
    }
    r.push(p[0]);
    assert(r@ =~= corners(p@, 1));
    let mut i: usize = 1;
    while i < p.len()
        invariant
            1 <= i <= p@.len(),
            p@.len() >= 2,
            cells_ok(p@),
            cells_ok(r@),
            r@.len() >= 1,
            i == p@.len() ==> r@.len() >= 2,
            r@ == corners(p@, i as int),
        decreases p@.len() - i,
    {
        let keep = if i + 1 < p.len() {
            let (u, v, w) = (p[i - 1], p[i], p[i + 1]);
            !((u.x == v.x && v.x == w.x) || (u.y == v.y && v.y == w.y))
        } else {
            true
        };
        if keep {
            r.push(p[i]);
        }
        i += 1;
    }
    r
}

impl Arena {
    fn back(&self, prev: &HashMap<u64, Node>, from: Node) -> (r: Vec<Cell>)
        requires
            self@.wf(),
            nodes_ok(self@, prev@),
            self@.in_window(from.x as int, from.y as int),
            from.d < 4,
        ensures
            r@ == trace(self@, prev@, from, self@.size()),
            cells_ok(r@),
    {
        let ghost e = self@;
        let mut acc: Vec<Cell> = Vec::new();
        let mut n: i64 = self.count();
        let mut k: Node = from;
        let mut going = true;
        assert(trace(e, prev@, from, e.size()) =~= trace(e, prev@, from, e.size())
            + acc@.reverse());
        while going && n > 0
            invariant
                e == self@,
                e.wf(),
                n >= 0,
                nodes_ok(e, prev@),
                e.in_window(k.x as int, k.y as int),
                k.d < 4,
                cells_ok(acc@),
                going ==> trace(e, prev@, from, e.size()) == trace(e, prev@, k, n as int)
                    + acc@.reverse(),
                !going ==> trace(e, prev@, from, e.size()) == acc@.reverse(),
            decreases (if going { 1int } else { 0 }), n,
        {
            let key: u64 = self.node_key(k.x, k.y, k.d);
            let start = k.x == self.a.x && k.y == self.a.y && k.d == self.da;
            let ghost a0 = acc@;
            if start {
                acc.push(Cell { x: k.x, y: k.y });
                going = false;
                proof {
                    assert(acc@.reverse() =~= seq![Cell { x: k.x, y: k.y }] + a0.reverse());
                }
            } else {
                match prev.get(&key) {
                    Some(p) => {
                        acc.push(Cell { x: k.x, y: k.y });
                        proof {
                            assert(prev@.contains_key(key));
                            assert(acc@.reverse() =~= seq![Cell { x: k.x, y: k.y }] + a0.reverse());
                            let t = trace(e, prev@, *p, n - 1);
                            assert(t.push(Cell { x: k.x, y: k.y }) + a0.reverse() =~= t
                                + acc@.reverse());
                        }
                        k = *p;
                        n -= 1;
                    },
                    None => {
                        going = false;
                        assert(Seq::<Cell>::empty() + a0.reverse() =~= a0.reverse());
                    },
                }
            }
        }
        proof {
            if going {
                assert(Seq::<Cell>::empty() + acc@.reverse() =~= acc@.reverse());
            }
            assert forall|i: int| 0 <= i < acc@.len() implies -0x110_0010 <= (
            #[trigger] acc@.reverse()[i]).x <= 0x110_0010 && -0x110_0010 <= acc@.reverse()[i].y
                <= 0x110_0010 by {
                assert(acc@.reverse()[i] == acc@[acc@.len() - 1 - i]);
            }
        }
        reversed(&acc)
    }

    fn wires_met(&self, fixed: i64, from: i64, to: i64, horizontal: bool) -> (n: i64)
        requires
            self@.wf(),
            -0x110_0011 <= from <= 0x110_0011,
            -0x110_0011 <= to <= 0x110_0011,
        ensures
            n == met(self@, fixed as int, from as int, to as int, horizontal),
            0 <= n <= 0x1000_0002,
    {
        let mut n: i64 = 0;
        let mut i: i64 = from;
        while i < to
            invariant
                self@.wf(),
                -0x110_0011 <= from <= 0x110_0011,
                -0x110_0011 <= to <= 0x110_0011,
                from <= i,
                i <= to || i == from,
                0 <= n <= i - from,
                n == met(self@, fixed as int, from as int, i as int, horizontal),
            decreases to - i,
        {
            let hit = if horizontal {
                self.has_wire(i, fixed, true)
            } else {
                self.has_wire(fixed, i, false)
            };
            if hit {
                n += 1;
            }
            i += 1;
        }
        n
    }

    fn shape_of(&self, p: &Vec<Cell>) -> (r: i128)
        requires
            self@.wf(),
            p@.len() >= 2,
            cells_ok(p@),
        ensures
            r == shape(self@, p@),
    {
        let mut length: i128 = 0;
        let mut crossed: i128 = 0;
        let mut i: usize = 0;
        while i < p.len() - 1
            invariant
                self@.wf(),
                p@.len() >= 2,
                cells_ok(p@),
                i <= p@.len() - 1,
                length == path_len(p@, i as int),
                crossed == crossings(self@, p@, i as int),
                0 <= length <= i * 0x4000_0000,
                0 <= crossed <= i * 0x4000_0000,
            decreases p@.len() - 1 - i,
        {
            let (u, v) = (p[i], p[i + 1]);
            length = length + abs_i(u.x - v.x) as i128 + abs_i(u.y - v.y) as i128;
            let c: i64 = if u.y == v.y {
                self.wires_met(u.y, min_i(u.x, v.x) + 1, max_i(u.x, v.x), true)
            } else {
                self.wires_met(u.x, min_i(u.y, v.y) + 1, max_i(u.y, v.y), false)
            };
            crossed = crossed + c as i128;
            i += 1;
        }
        let last: Cell = p[p.len() - 1];
        let straight: i128 = (abs_i(last.x - self.a.x) + abs_i(last.y - self.a.y)) as i128;
        let bends: i128 = p.len() as i128 - 2;
        length - straight + 6 * bends + 20 * crossed
    }

    /// Searches for the wire; see [`found_wire`].
    pub fn find(&self, simple_only: bool) -> (r: Option<(Vec<Pt>, Option<usize>)>)
        requires
            self@.wf(),
        ensures
            match r {
                Some(w) => found_wire(self@, simple_only) == Some((w.0@, w.1)) && w.0@.len() >= 2
                    && wire_path(w.0@) && (w.1 matches Some(j) ==> exists|i: int|
                        0 <= i < self@.joins.len() && (#[trigger] self@.joins[i]).0 == j),
                None => found_wire(self@, simple_only) is None,
            },
    {
        let found = self.run();
        let k: Node = match found.0 {
            Some(k) => k,
            None => return None,
        };
        let at_b = k.x == self.b.x && k.y == self.b.y;
        if simple_only && !at_b {
            return None;
        }
        let joined: Option<usize> = if at_b {
            None
        } else {
            self.owner(k.x, k.y)
        };
        let cells = self.back(&found.1, k);
        if cells.len() == 0 {
            return None;
        }
        let p = compress(&cells);
        let most: i128 = if simple_only { 8 } else { 30 };
        if self.shape_of(&p) > most {
            return None;
        }
        let mut out: Vec<Pt> = Vec::new();
        let mut i: usize = 0;
        while i < p.len()
            invariant
                i <= p@.len(),
                cells_ok(p@),
                out@ == cells_to_path(p@).take(i as int),
                wire_path(out@),
            decreases p@.len() - i,
        {
            let q = Pt { x: p[i].x * GRID, y: p[i].y * GRID };
            proof {
                assert(cells_to_path(p@).take(i + 1) =~= cells_to_path(p@).take(i as int).push(
                    cells_to_path(p@)[i as int],
                ));
            }
            out.push(q);
            i += 1;
        }
        assert(cells_to_path(p@).take(i as int) =~= cells_to_path(p@));
        proof {
            lemma_owner(self@, k.x as int, k.y as int, self@.joins.len() as int);
        }
        Some((out, joined))
    }
}

// ---------------------------------------------------------------- the search finds a cheapest way
/// The node behind a step.
pub open spec fn node_after(n: Node, nd: u8) -> Node {
    Node { x: (n.x + dx(nd)) as i64, y: (n.y + dy(nd)) as i64, d: nd }
}

pub open spec fn start_of(e: ArenaV) -> Node {
    Node { x: e.a.x, y: e.a.y, d: e.da }
}

/// Where a way leads, and what it costs.
pub struct WayV {
    pub at: Node,
    pub cost: int,
}

/// Where a way from the start leads that takes the given steps, and what it costs; none where a step
/// is not allowed.
pub open spec fn way(e: ArenaV, ds: Seq<u8>) -> Option<WayV>
    decreases ds.len(),
{
    if ds.len() == 0 {
        Some(WayV { at: start_of(e), cost: 0 })
    } else {
        match way(e, ds.drop_last()) {
            None => None,
            Some(w) => match e.step_cost(w.at, ds.last()) {
                Some(c) if ds.last() < 4 => Some(
                    WayV { at: node_after(w.at, ds.last()), cost: w.cost + c },
                ),
                _ => None,
            },
        }
    }
}

/// Whether some way leads to a node at that cost.
pub open spec fn reached(e: ArenaV, n: Node, c: int) -> bool {
    exists|ds: Seq<u8>| #[trigger] way(e, ds) == Some(WayV { at: n, cost: c })
}

pub open spec fn node_in(e: ArenaV, n: Node) -> bool {
    e.in_window(n.x as int, n.y as int) && n.d < 4
}

pub(crate) open spec fn settled(e: ArenaV, s: SearchV, n: Node) -> bool {
    s.best.contains_key(e.key(n.x as int, n.y as int, n.d))
}

pub(crate) open spec fn best_of(e: ArenaV, s: SearchV, n: Node) -> int {
    s.best[e.key(n.x as int, n.y as int, n.d)] as int
}

/// Whether a node is settled or open at no more than that cost.
pub(crate) open spec fn known(e: ArenaV, s: SearchV, n: Node, c: int) -> bool {
    ||| settled(e, s, n) && best_of(e, s, n) <= c
    ||| exists|i: int|
        0 <= i < s.open.len() && node_of(#[trigger] s.open[i]) == n && s.open[i].cost <= c
}

pub(crate) open spec fn open_fine(e: ArenaV, q: Seq<Item>) -> bool {
    &&& open_ok(e, q)
    &&& forall|i: int, j: int| 0 <= i < j < q.len() ==> (#[trigger] q[i]).cost >= (#[trigger] q[j]).cost
    &&& forall|i: int| 0 <= i < q.len() ==> reached(e, node_of(#[trigger] q[i]), q[i].cost as int)
}

pub(crate) open spec fn sound(e: ArenaV, s: SearchV) -> bool {
    &&& open_fine(e, s.open)
    &&& forall|n: Node| #[trigger]
        settled(e, s, n) && node_in(e, n) ==> !e.ends_at(n) && forall|i: int|
            0 <= i < s.open.len() ==> best_of(e, s, n) <= (#[trigger] s.open[i]).cost
    &&& forall|n: Node, nd: u8|
        #![trigger e.step_cost(n, nd)]
        settled(e, s, n) && node_in(e, n) && !e.too_far(best_of(e, s, n)) && nd < 4 && e.step_cost(
            n,
            nd,
        ) is Some ==> known(e, s, node_after(n, nd), best_of(e, s, n) + e.step_cost(n, nd)->0)
    &&& known(e, s, start_of(e), 0)
}

pub(crate) proof fn lemma_window(e: ArenaV)
    requires
        e.wf(),
    ensures
        -0x800_0000 <= e.x0() <= e.x1() <= 0x800_0000,
        -0x800_0000 <= e.y0() <= e.y1() <= 0x800_0000,
{
}

/// Two nodes of the window with one key are the same.
#[verifier::spinoff_prover]
#[verifier::rlimit(40)]
proof fn lemma_key(e: ArenaV, m: Node, n: Node)
    requires
        e.wf(),
        node_in(e, m),
        node_in(e, n),
        e.key(m.x as int, m.y as int, m.d) == e.key(n.x as int, n.y as int, n.d),
    ensures
        m == n,
{
    lemma_window(e);
    let h = e.y1() - e.y0() + 1;
    let (a, b) = (m.x - e.x0(), n.x - e.x0());
    let (c, d) = (m.y - e.y0(), n.y - e.y0());
    assert(0 <= a * h <= 0x1000_0000 * 0x1000_0001 && 0 <= b * h <= 0x1000_0000 * 0x1000_0001)
        by (nonlinear_arith)
        requires
            0 <= a <= 0x1000_0000,
            0 <= b <= 0x1000_0000,
            1 <= h <= 0x1000_0001,
    ;
    assert((a * h + c) * 4 + m.d == (b * h + d) * 4 + n.d);
    assert(a * h + c == b * h + d);
    assert(a == b && c == d) by (nonlinear_arith)
        requires
            a * h + c == b * h + d,
            0 <= c < h,
            0 <= d < h,
    ;
}

pub(crate) proof fn lemma_way(e: ArenaV, ds: Seq<u8>)
    requires
        e.wf(),
        way(e, ds) is Some,
    ensures
        node_in(e, way(e, ds)->0.at),
        way(e, ds)->0.cost >= 0,
    decreases ds.len(),
{
    lemma_window(e);
    if ds.len() > 0 {
        lemma_way(e, ds.drop_last());
    }
}

pub(crate) proof fn lemma_placed(q: Seq<Item>, it: Item, pos: int)
    requires
        0 <= pos <= q.len(),
    ensures
        0 <= place(q, it, pos) <= pos,
        place(q, it, pos) > 0 ==> q[place(q, it, pos) - 1].cost >= it.cost,
        forall|i: int| place(q, it, pos) <= i < pos ==> (#[trigger] q[i]).cost <= it.cost,
    decreases pos,
{
    if pos > 0 && !later(q[pos - 1], it) {
        lemma_placed(q, it, pos - 1);
    }
}

/// An entry that is put into the open list is there, and the list stays in order.
#[verifier::spinoff_prover]
#[verifier::rlimit(80)]
proof fn lemma_enqueue(e: ArenaV, q: Seq<Item>, it: Item)
    requires
        open_fine(e, q),
        item_ok(e, it),
        reached(e, node_of(it), it.cost as int),
    ensures
        open_fine(e, enqueue(q, it)),
        enqueue(q, it).len() == q.len() + 1,
        enqueue(q, it).contains(it),
        forall|i: int| 0 <= i < q.len() ==> enqueue(q, it).contains(#[trigger] q[i]),
        forall|i: int|
            0 <= i < enqueue(q, it).len() ==> (#[trigger] enqueue(q, it)[i]) == it || q.contains(
                enqueue(q, it)[i],
            ),
{
    let p = place(q, it, q.len() as int);
    lemma_placed(q, it, q.len() as int);
    let r = enqueue(q, it);
    assert(r[p] == it);
    assert forall|i: int| 0 <= i < q.len() implies r.contains(#[trigger] q[i]) by {
        if i < p {
            assert(r[i] == q[i]);
        } else {
            assert(r[i + 1] == q[i]);
        }
    }
    assert forall|i: int| 0 <= i < r.len() implies (#[trigger] r[i]) == it || q.contains(r[i]) by {
        if i < p {
            assert(r[i] == q[i]);
        } else if i > p {
            assert(r[i] == q[i - 1]);
        }
    }
    assert forall|i: int, j: int| 0 <= i < j < r.len() implies (#[trigger] r[i]).cost >= (
    #[trigger] r[j]).cost by {
        if i < p && j == p {
            assert(r[i] == q[i]);
            assert(i < p - 1 ==> q[i].cost >= q[p - 1].cost);
        } else if i == p {
            assert(r[j] == q[j - 1]);
        } else {
            let a = if i < p { i } else { i - 1 };
            let b = if j < p { j } else { j - 1 };
            assert(r[i] == q[a] && r[j] == q[b]);
        }
    }
    assert forall|i: int| 0 <= i < r.len() implies item_ok(e, #[trigger] r[i]) && reached(
        e,
        node_of(r[i]),
        r[i].cost as int,
    ) by {
        if i != p {
            let a = if i < p { i } else { i - 1 };
            assert(r[i] == q[a]);
            assert(item_ok(e, q[a]));
        }
    }
}

/// What opening the neighbours of a settled node from a direction on leaves.
spec fn opened(e: ArenaV, it: Item, d: int, s: SearchV, r: SearchV) -> bool {
    &&& r.best == s.best
    &&& open_fine(e, r.open)
    &&& forall|i: int| 0 <= i < s.open.len() ==> r.open.contains(#[trigger] s.open[i])
    &&& forall|i: int| 0 <= i < r.open.len() ==> (#[trigger] r.open[i]).cost >= it.cost
    &&& forall|nd: u8|
        #![trigger e.step_cost(node_of(it), nd)]
        d <= nd < 4 && e.step_cost(node_of(it), nd) is Some ==> known(
            e,
            r,
            node_after(node_of(it), nd),
            it.cost + e.step_cost(node_of(it), nd)->0,
        )
}

#[verifier::spinoff_prover]
#[verifier::rlimit(40)]
proof fn lemma_known_grows(e: ArenaV, s: SearchV, r: SearchV, n: Node, c: int)
    requires
        r.best == s.best,
        forall|i: int| 0 <= i < s.open.len() ==> r.open.contains(#[trigger] s.open[i]),
        known(e, s, n, c),
    ensures
        known(e, r, n, c),
{
    if !(settled(e, s, n) && best_of(e, s, n) <= c) {
        let i = choose|i: int|
            0 <= i < s.open.len() && node_of(#[trigger] s.open[i]) == n && s.open[i].cost <= c;
        assert(r.open.contains(s.open[i]));
        let j = choose|j: int| 0 <= j < r.open.len() && r.open[j] == s.open[i];
        assert(node_of(r.open[j]) == n);
    }
}

#[verifier::spinoff_prover]
#[verifier::rlimit(40)]
proof fn lemma_expand(e: ArenaV, it: Item, d: int, s: SearchV)
    requires
        e.wf(),
        0 <= d <= 4,
        item_ok(e, it),
        !e.too_far(it.cost as int),
        reached(e, node_of(it), it.cost as int),
        open_fine(e, s.open),
        forall|i: int| 0 <= i < s.open.len() ==> (#[trigger] s.open[i]).cost >= it.cost,
        forall|n: Node| #[trigger] settled(e, s, n) && node_in(e, n) ==> best_of(e, s, n) <= it.cost,
    ensures
        opened(e, it, d, s, expand(e, it, d, s)),
    decreases 4 - d,
{
    lemma_window(e);
    let r = expand(e, it, d, s);
    if d < 4 {
        let nd = d as u8;
        let n = node_after(node_of(it), nd);
        match e.step_cost(node_of(it), nd) {
            Some(c) if !s.best.contains_key(e.key(it.x + dx(nd), it.y + dy(nd), nd)) => {
                let new = Item {
                    cost: (it.cost + c) as i64,
                    extra: (it.extra + e.step_extra(node_of(it), nd)) as i64,
                    x: n.x,
                    y: n.y,
                    d: nd,
                    pd: it.d,
                };
                let ds = choose|ds: Seq<u8>| #[trigger]
                    way(e, ds) == Some(WayV { at: node_of(it), cost: it.cost as int });
                assert(ds.push(nd).drop_last() =~= ds);
                assert(way(e, ds.push(nd)) == Some(WayV { at: n, cost: new.cost as int }));
                assert(node_of(new) == n);
                assert(item_ok(e, new));
                lemma_enqueue(e, s.open, new);
                let t = SearchV { open: enqueue(s.open, new), best: s.best, prev: s.prev };
                assert forall|m: Node| #[trigger] settled(e, t, m) && node_in(e, m) implies best_of(
                    e,
                    t,
                    m,
                ) <= it.cost by {
                    assert(settled(e, s, m));
                }
                assert forall|i: int| 0 <= i < t.open.len() implies (#[trigger] t.open[i]).cost
                    >= it.cost by {
                    if t.open[i] != new {
                        assert(s.open.contains(t.open[i]));
                    }
                }
                lemma_expand(e, it, d + 1, t);
                let j = choose|j: int| 0 <= j < t.open.len() && t.open[j] == new;
                assert(node_of(t.open[j]) == n);
                assert(known(e, t, n, it.cost + c));
                lemma_known_grows(e, t, r, n, it.cost + c);
                assert forall|i: int| 0 <= i < s.open.len() implies r.open.contains(
                    #[trigger] s.open[i],
                ) by {
                    assert(t.open.contains(s.open[i]));
                    let k = choose|k: int| 0 <= k < t.open.len() && t.open[k] == s.open[i];
                    assert(r.open.contains(t.open[k]));
                }
            },
            Some(c) => {
                lemma_expand(e, it, d + 1, s);
                assert(settled(e, s, n) && node_in(e, n));
                assert(known(e, r, n, it.cost + c));
            },
            None => {
                lemma_expand(e, it, d + 1, s);
            },
        }
        assert forall|q: u8| #![trigger e.step_cost(node_of(it), q)] d <= q < 4 && e.step_cost(
            node_of(it),
            q,
        ) is Some implies known(
            e,
            r,
            node_after(node_of(it), q),
            it.cost + e.step_cost(node_of(it), q)->0,
        ) by {
            if q != nd {
                assert(d + 1 <= q);
            }
        }
    } else {
        assert forall|i: int| 0 <= i < s.open.len() implies r.open.contains(#[trigger] s.open[i]) by {
            assert(r.open[i] == s.open[i]);
        }
    }
}

/// A way that is cheaper than every open entry leads to a settled node.
#[verifier::spinoff_prover]
#[verifier::rlimit(40)]
pub(crate) proof fn lemma_cheap_ways(e: ArenaV, s: SearchV, ds: Seq<u8>, m: int)
    requires
        e.wf(),
        sound(e, s),
        way(e, ds) is Some,
        way(e, ds)->0.cost < m,
        !e.too_far(way(e, ds)->0.cost),
        forall|i: int| 0 <= i < s.open.len() ==> (#[trigger] s.open[i]).cost >= m,
    ensures
        settled(e, s, way(e, ds)->0.at),
        best_of(e, s, way(e, ds)->0.at) <= way(e, ds)->0.cost,
    decreases ds.len(),
{
    if ds.len() > 0 {
        let p = ds.drop_last();
        let w = way(e, p)->0;
        lemma_way(e, p);
        let c = e.step_cost(w.at, ds.last())->0;
        lemma_cheap_ways(e, s, p, m);
        assert(known(e, s, node_after(w.at, ds.last()), best_of(e, s, w.at) + c));
    } else {
        assert(known(e, s, start_of(e), 0));
    }
}

/// Whether a node ends a way from the start that no other way to an end undercuts, as far as the
/// search goes.
pub open spec fn cheapest_end(e: ArenaV, k: Node) -> bool {
    exists|c: int|
        e.ends_at(k) && #[trigger] reached(e, k, c) && forall|ds: Seq<u8>|
            (#[trigger] way(e, ds)) is Some && e.ends_at(way(e, ds)->0.at) && !e.too_far(
                way(e, ds)->0.cost,
            ) ==> c <= way(e, ds)->0.cost
}

#[verifier::spinoff_prover]
#[verifier::rlimit(60)]
proof fn lemma_search(e: ArenaV, s: SearchV, left: int)
    requires
        e.wf(),
        sound(e, s),
    ensures
        match search(e, s, left).0 {
            Some(k) => cheapest_end(e, k),
            None => true,
        },
    decreases left, s.open.len(),
{
    if s.open.len() > 0 {
        let it = s.open.last();
        assert(item_ok(e, it));
        let n = node_of(it);
        let k = e.key(it.x as int, it.y as int, it.d);
        let rest = SearchV { open: s.open.drop_last(), ..s };
        if s.best.contains_key(k) {
            lemma_rest(e, s);
            lemma_search(e, rest, left);
        } else if left > 0 {
            if e.ends_at(n) {
                assert(reached(e, n, it.cost as int));
                assert forall|ds: Seq<u8>|
                    (#[trigger] way(e, ds)) is Some && e.ends_at(way(e, ds)->0.at) && !e.too_far(
                        way(e, ds)->0.cost,
                    ) implies it.cost <= way(e, ds)->0.cost by {
                    if way(e, ds)->0.cost < it.cost {
                        lemma_cheap_ways(e, s, ds, it.cost as int);
                        lemma_way(e, ds);
                        assert(settled(e, s, way(e, ds)->0.at));
                    }
                }
            } else {
                let done = SearchV {
                    open: rest.open,
                    best: rest.best.insert(k, it.cost),
                    prev: rest.prev.insert(k, before_it(it)),
                };
                lemma_settle(e, s);
                if e.too_far(it.cost as int) {
                    lemma_search(e, done, left - 1);
                } else {
                    lemma_search(e, expand(e, it, 0, done), left - 1);
                }
            }
        }
    }
}

/// An entry for a node that is settled already can go.
#[verifier::spinoff_prover]
#[verifier::rlimit(40)]
pub(crate) proof fn lemma_rest(e: ArenaV, s: SearchV)
    requires
        e.wf(),
        sound(e, s),
        s.open.len() > 0,
        settled(e, s, node_of(s.open.last())),
    ensures
        sound(e, (SearchV { open: s.open.drop_last(), ..s })),
{
    let it = s.open.last();
    assert(item_ok(e, it));
    let r = SearchV { open: s.open.drop_last(), ..s };
    assert forall|n: Node, c: int| known(e, s, n, c) implies #[trigger] known(e, r, n, c) by {
        lemma_known_rest(e, s, r, n, c);
    }
    assert forall|n: Node| #[trigger] settled(e, r, n) && node_in(e, n) implies !e.ends_at(n)
        && forall|i: int| 0 <= i < r.open.len() ==> best_of(e, r, n) <= (#[trigger] r.open[i]).cost by {
        assert(settled(e, s, n));
        assert forall|i: int| 0 <= i < r.open.len() implies best_of(e, r, n) <= (
        #[trigger] r.open[i]).cost by {
            assert(r.open[i] == s.open[i]);
        }
    }
    lemma_shorter(e, s.open);
}

#[verifier::spinoff_prover]
#[verifier::rlimit(40)]
proof fn lemma_shorter(e: ArenaV, q: Seq<Item>)
    requires
        open_fine(e, q),
        q.len() > 0,
    ensures
        open_fine(e, q.drop_last()),
{
    let r = q.drop_last();
    assert forall|i: int| 0 <= i < r.len() implies item_ok(e, #[trigger] r[i]) && reached(
        e,
        node_of(r[i]),
        r[i].cost as int,
    ) by {
        assert(r[i] == q[i]);
    }
}

#[verifier::spinoff_prover]
#[verifier::rlimit(40)]
proof fn lemma_known_rest(e: ArenaV, s: SearchV, r: SearchV, n: Node, c: int)
    requires
        sound(e, s),
        s.open.len() > 0,
        item_ok(e, s.open.last()),
        r.open == s.open.drop_last(),
        settled(e, r, node_of(s.open.last())),
        best_of(e, r, node_of(s.open.last())) <= s.open.last().cost,
        forall|m: Node| #[trigger] settled(e, s, m) ==> settled(e, r, m) && best_of(e, r, m)
            == best_of(e, s, m),
        known(e, s, n, c),
    ensures
        known(e, r, n, c),
{
    if settled(e, s, n) && best_of(e, s, n) <= c {
        assert(settled(e, r, n));
    } else {
        let i = choose|i: int|
            0 <= i < s.open.len() && node_of(#[trigger] s.open[i]) == n && s.open[i].cost <= c;
        if i < r.open.len() {
            assert(r.open[i] == s.open[i]);
        }
    }
}

/// Settling the cheapest open entry, and opening its neighbours unless it is too far.
#[verifier::spinoff_prover]
#[verifier::rlimit(80)]
pub(crate) proof fn lemma_settle(e: ArenaV, s: SearchV)
    requires
        e.wf(),
        sound(e, s),
        s.open.len() > 0,
        !settled(e, s, node_of(s.open.last())),
        !e.ends_at(node_of(s.open.last())),
    ensures
        ({
            let it = s.open.last();
            let k = e.key(it.x as int, it.y as int, it.d);
            let done = SearchV {
                open: s.open.drop_last(),
                best: s.best.insert(k, it.cost),
                prev: s.prev.insert(k, before_it(it)),
            };
            if e.too_far(it.cost as int) {
                sound(e, done)
            } else {
                sound(e, expand(e, it, 0, done))
            }
        }),
{
    let it = s.open.last();
    let top = node_of(it);
    let k = e.key(it.x as int, it.y as int, it.d);
    let done = SearchV {
        open: s.open.drop_last(),
        best: s.best.insert(k, it.cost),
        prev: s.prev.insert(k, before_it(it)),
    };
    assert(item_ok(e, it));
    assert(reached(e, top, it.cost as int));
    lemma_shorter(e, s.open);
    assert forall|m: Node| #[trigger] settled(e, s, m) implies settled(e, done, m) && best_of(
        e,
        done,
        m,
    ) == best_of(e, s, m) by {
    }
    assert(settled(e, done, top) && best_of(e, done, top) == it.cost);
    assert forall|i: int| 0 <= i < done.open.len() implies (#[trigger] done.open[i]).cost
        >= it.cost by {
        assert(done.open[i] == s.open[i]);
        assert(s.open[i].cost >= s.open[s.open.len() - 1].cost);
    }
    assert forall|n: Node| #[trigger] settled(e, done, n) && node_in(e, n) implies !e.ends_at(n)
        && best_of(e, done, n) <= it.cost && (n == top || settled(e, s, n)) by {
        if e.key(n.x as int, n.y as int, n.d) == k {
            lemma_key(e, n, top);
        } else {
            assert(settled(e, s, n));
            assert(best_of(e, s, n) <= s.open[s.open.len() - 1].cost);
        }
    }
    let r = if e.too_far(it.cost as int) {
        done
    } else {
        expand(e, it, 0, done)
    };
    if !e.too_far(it.cost as int) {
        lemma_expand(e, it, 0, done);
    } else {
        assert forall|i: int| 0 <= i < done.open.len() implies r.open.contains(
            #[trigger] done.open[i],
        ) by {
            assert(r.open[i] == done.open[i]);
        }
    }
    assert forall|n: Node, c: int| known(e, s, n, c) implies #[trigger] known(e, r, n, c) by {
        lemma_known_rest(e, s, done, n, c);
        lemma_known_grows(e, done, r, n, c);
    }
    assert forall|n: Node| #[trigger] settled(e, r, n) && node_in(e, n) implies !e.ends_at(n)
        && forall|i: int| 0 <= i < r.open.len() ==> best_of(e, r, n) <= (#[trigger] r.open[i]).cost by {
        assert(settled(e, done, n));
        assert(best_of(e, done, n) <= it.cost);
    }
    assert forall|n: Node, nd: u8|
        #![trigger e.step_cost(n, nd)]
        settled(e, r, n) && node_in(e, n) && !e.too_far(best_of(e, r, n)) && nd < 4 && e.step_cost(
            n,
            nd,
        ) is Some implies known(e, r, node_after(n, nd), best_of(e, r, n) + e.step_cost(n, nd)->0) by {
        assert(settled(e, done, n));
        if n == top {
            assert(e.step_cost(node_of(it), nd) is Some);
        } else {
            assert(settled(e, s, n));
            assert(known(e, s, node_after(n, nd), best_of(e, s, n) + e.step_cost(n, nd)->0));
        }
    }
    assert(known(e, s, start_of(e), 0));
}

/// The search starts soundly.
pub(crate) proof fn lemma_start_sound(e: ArenaV)
    requires
        e.wf(),
    ensures
        sound(e, start_state(e)),
{
    let s = start_state(e);
    lemma_window(e);
    assert(way(e, Seq::empty()) == Some(WayV { at: start_of(e), cost: 0 }));
    let it = s.open[0];
    assert(node_of(it) == start_of(e));
    assert(reached(e, node_of(it), it.cost as int));
}

pub(crate) proof fn lemma_size(e: ArenaV)
    requires
        e.wf(),
    ensures
        e.size() >= 0,
{
    lemma_window(e);
    let (a, b) = (e.x1() - e.x0() + 1, e.y1() - e.y0() + 1);
    assert(a * b >= 0) by (nonlinear_arith)
        requires
            a >= 0,
            b >= 0,
    ;
}

/// The search ends where a cheapest way leads: no way that the search goes to the end of leads to an
/// end at less cost.
pub proof fn the_search_ends_at_a_cheapest_end(e: ArenaV)
    requires
        e.wf(),
    ensures
        match search(e, start_state(e), e.size()).0 {
            Some(k) => cheapest_end(e, k),
            None => true,
        },
{
    let s = start_state(e);
    lemma_window(e);
    assert(way(e, Seq::empty()) == Some(WayV { at: start_of(e), cost: 0 }));
    let it = s.open[0];
    assert(node_of(it) == start_of(e));
    assert(reached(e, node_of(it), it.cost as int));
    lemma_search(e, s, e.size());
}

/// No step of a way enters a part, but for the cells in front of the two tips.
pub proof fn ways_enter_no_part(e: ArenaV, ds: Seq<u8>)
    requires
        e.wf(),
        way(e, ds) is Some,
        ds.len() > 0,
    ensures
        ({
            let n = way(e, ds)->0.at;
            !e.blocked(n.x as int, n.y as int) || e.stub_cell(n.x as int, n.y as int)
        }),
        way(e, ds.drop_last()) is Some,
{
    lemma_window(e);
    lemma_way(e, ds.drop_last());
}

} // verus!
