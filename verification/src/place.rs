//! Where the components of a circuit stand: each block packs its units into rows, and the blocks
//! stack in bands from left to right by the edge that they ask for.
use crate::emit;
use crate::emit::snap_sum;
use crate::flex::cut_wide;
use crate::geom;
use crate::geom::Pt;
use crate::kernel::{Block, BlockGraph, Cluster, ClusterGeom, Component, Design, Origin};
use crate::order_map;
use crate::orient;
use crate::reconcile;
pub use crate::reconcile::cluster_key;
use crate::reconcile::{find_named, seek_name, Layout};
use crate::text::same;
use vstd::prelude::*;

verus! {

/// The cell of a component whose size is not known.
pub const CELL: i64 = 2_540_000;

/// What is added to the size of a symbol for its stubs, labels and fields.
pub const CLEARANCE: i64 = 1_524_000;

/// The gap between two bands, and between two blocks of a band.
pub const GAP: i64 = 1_270_000;

/// Where placement begins.
pub const MARGIN: i64 = 2_540_000;

/// The largest extent of a unit; longer ones are cut to it.
pub const EXTENT_MAX: i64 = 0x8000_0000;

// ---------------------------------------------------------------- bands and cells
/// The band of a block, from left to right.
pub open spec fn band_of(edge: Seq<char>) -> int {
    if edge == "Some(Left)"@ {
        0
    } else if edge == "Some(Top)"@ {
        1
    } else if edge == "Some(Bottom)"@ {
        2
    } else if edge == "Some(Right)"@ {
        4
    } else {
        3
    }
}

/// The band of a block by the edge that it asks for: left, top, bottom, none, right.
pub fn band_rank(edge: &str) -> (r: u8)
    ensures
        r == band_of(edge@),
        r < 5,
{
    if same(edge, "Some(Left)") {
        0
    } else if same(edge, "Some(Top)") {
        1
    } else if same(edge, "Some(Bottom)") {
        2
    } else if same(edge, "Some(Right)") {
        4
    } else {
        3
    }
}

/// A length cut to the largest extent of a unit.
pub open spec fn capped(v: int) -> int {
    if v > EXTENT_MAX {
        EXTENT_MAX as int
    } else if v < -EXTENT_MAX {
        -EXTENT_MAX
    } else {
        v
    }
}

fn cap(v: i64) -> (r: i64)
    ensures
        r == capped(v as int),
        -EXTENT_MAX <= r <= EXTENT_MAX,
{
    if v > EXTENT_MAX {
        EXTENT_MAX
    } else if v < -EXTENT_MAX {
        -EXTENT_MAX
    } else {
        v
    }
}

/// The least multiple of two steps that is not below a length.
pub open spec fn next_cell(v: int) -> int {
    -((-v) / 254_000) * 254_000
}

/// The least multiple of two steps that is not below a length.
pub fn snap_up(v: i64) -> (r: i64)
    requires
        -0x1_0000_0000 <= v <= 0x1_0000_0000,
    ensures
        r == next_cell(v as int),
        v <= r < v + 254_000,
{
    let q: i64 = geom::floor_div(-v, 254_000);
    -q * 254_000
}

/// What a unit takes of a block: its width and its height.
pub open spec fn cell_for(refdes: Seq<char>, sizes: Seq<(String, (i64, i64))>) -> (int, int) {
    match order_map::look(reconcile::named(sizes), refdes) {
        Some(s) => (
            capped(next_cell(capped(s.0 as int) + CLEARANCE)),
            capped(next_cell(capped(s.1 as int) + CLEARANCE)),
        ),
        None => (CELL as int, CELL as int),
    }
}

/// The cell of a component: its size and the clearance around it, in whole cells.
pub fn cell_of(refdes: &str, sizes: &Vec<(String, (i64, i64))>) -> (r: (i64, i64))
    ensures
        r.0 == cell_for(refdes@, sizes@).0,
        r.1 == cell_for(refdes@, sizes@).1,
        extent_ok(r),
{
    match find_named(sizes, refdes) {
        Some(s) => (cap(snap_up(cap(s.0) + CLEARANCE)), cap(snap_up(cap(s.1) + CLEARANCE))),
        None => (CELL, CELL),
    }
}

// ---------------------------------------------------------------- the units of a block
/// What is packed as one: a component of its own, or a cluster by its number.
#[derive(Debug, Clone, PartialEq, Eq)]
pub enum Unit {
    Anchor(String),
    Cluster(usize),
}

pub enum UnitV {
    Anchor(Seq<char>),
    Cluster(int),
}

impl View for Unit {
    type V = UnitV;

    open spec fn view(&self) -> UnitV {
        match *self {
            Unit::Anchor(r) => UnitV::Anchor(r@),
            Unit::Cluster(c) => UnitV::Cluster(c as int),
        }
    }
}

pub open spec fn units_v(v: Seq<Unit>) -> Seq<UnitV> {
    Seq::new(v.len(), |i: int| v[i]@)
}

/// Whether a component was made for another one.
pub open spec fn stems(b: Block, m: Seq<char>, parent: Seq<char>) -> bool {
    match order_map::look(reconcile::named(b.components@), m) {
        Some(c) => match c.origin {
            Origin::Synthesized { parent: p, .. } => p@ == parent,
            Origin::Authored => false,
        },
        None => false,
    }
}

/// Whether a cluster holds a component that was made for another one.
pub open spec fn child_of(b: Block, c: Cluster, parent: Seq<char>) -> bool {
    exists|k: int| 0 <= k < c.members@.len() && stems(b, #[trigger] c.members@[k]@, parent)
}

/// Whether a cluster goes with one of the first `n` anchors.
pub open spec fn taken(b: Block, g: BlockGraph, c: int, n: int) -> bool {
    exists|k: int| 0 <= k < n && child_of(b, g.clusters@[c], #[trigger] g.anchors@[k]@)
}

/// The clusters among the first `n` that go with an anchor and with none before it.
pub open spec fn hung(b: Block, g: BlockGraph, a: int, n: int) -> Seq<UnitV>
    decreases n,
{
    if n <= 0 {
        Seq::empty()
    } else if child_of(b, g.clusters@[n - 1], g.anchors@[a]@) && !taken(b, g, n - 1, a) {
        hung(b, g, a, n - 1).push(UnitV::Cluster(n - 1))
    } else {
        hung(b, g, a, n - 1)
    }
}

/// The first `n` anchors, each with its clusters behind it.
pub open spec fn anchored(b: Block, g: BlockGraph, n: int) -> Seq<UnitV>
    decreases n,
{
    if n <= 0 {
        Seq::empty()
    } else {
        anchored(b, g, n - 1).push(UnitV::Anchor(g.anchors@[n - 1]@)) + hung(
            b,
            g,
            n - 1,
            g.clusters@.len() as int,
        )
    }
}

/// The clusters among the first `n` that go with no anchor.
pub open spec fn loose(b: Block, g: BlockGraph, n: int) -> Seq<UnitV>
    decreases n,
{
    if n <= 0 {
        Seq::empty()
    } else if !taken(b, g, n - 1, g.anchors@.len() as int) {
        loose(b, g, n - 1).push(UnitV::Cluster(n - 1))
    } else {
        loose(b, g, n - 1)
    }
}

pub open spec fn units_of(b: Block, g: BlockGraph) -> Seq<UnitV> {
    anchored(b, g, g.anchors@.len() as int) + loose(b, g, g.clusters@.len() as int)
}

/// Every member of a cluster is a component of the block.
pub open spec fn graph_fits(b: Block, g: BlockGraph) -> bool {
    forall|c: int, k: int|
        0 <= c < g.clusters@.len() && 0 <= k < g.clusters@[c].members@.len()
            ==> order_map::look(
            reconcile::named(b.components@),
            #[trigger] g.clusters@[c].members@[k]@,
        ) is Some
}

fn is_stem(b: &Block, m: &str, parent: &str) -> (r: bool)
    ensures
        r == stems(*b, m@, parent@),
{
    match find_named(&b.components, m) {
        Some(c) => match &c.origin {
            Origin::Synthesized { parent: p, .. } => same(p.as_str(), parent),
            Origin::Authored => false,
        },
        None => false,
    }
}

fn is_child(b: &Block, c: &Cluster, parent: &str) -> (r: bool)
    ensures
        r == child_of(*b, *c, parent@),
{
    let mut k: usize = 0;
    while k < c.members.len()
        invariant
            k <= c.members@.len(),
            forall|j: int| 0 <= j < k ==> !stems(*b, #[trigger] c.members@[j]@, parent@),
        decreases c.members@.len() - k,
    {
        if is_stem(b, c.members[k].as_str(), parent) {
            assert(stems(*b, c.members@[k as int]@, parent@));
            return true;
        }
        k += 1;
    }
    false
}

/// The units of a block: each anchor with the clusters that were made for it, then the others.
pub fn block_units(block: &Block, graph: &BlockGraph) -> (r: Vec<Unit>)
    requires
        graph_fits(*block, *graph),
    ensures
        units_v(r@) == units_of(*block, *graph),
        forall|i: int|
            0 <= i < r@.len() ==> match #[trigger] r@[i] {
                Unit::Cluster(c) => c < graph.clusters@.len(),
                Unit::Anchor(_) => true,
            },
{
    let n = graph.clusters.len();
    let mut used: Vec<bool> = Vec::new();
    let mut i: usize = 0;
    while i < n
        invariant
            i <= n,
            used@.len() == i,
            forall|k: int| 0 <= k < i ==> !(#[trigger] used@[k]),
        decreases n - i,
    {
        used.push(false);
        i += 1;
    }
    let mut r: Vec<Unit> = Vec::new();
    assert(units_v(r@) =~= anchored(*block, *graph, 0));
    let mut a: usize = 0;
    while a < graph.anchors.len()
        invariant
            a <= graph.anchors@.len(),
            n == graph.clusters@.len(),
            used@.len() == n,
            forall|k: int|
                0 <= k < n ==> #[trigger] used@[k] == taken(*block, *graph, k, a as int),
            units_v(r@) == anchored(*block, *graph, a as int),
            forall|k: int|
                0 <= k < r@.len() ==> match #[trigger] r@[k] {
                    Unit::Cluster(c) => c < n,
                    Unit::Anchor(_) => true,
                },
        decreases graph.anchors@.len() - a,
    {
        let name = graph.anchors[a].as_str();
        let ghost r0 = units_v(r@);
        r.push(Unit::Anchor(name.to_owned()));
        let ghost r1 = r0.push(UnitV::Anchor(name@));
        assert(units_v(r@) =~= r1);
        let ghost used0 = used@;
        let mut c: usize = 0;
        assert(r1 =~= r1 + hung(*block, *graph, a as int, 0));
        while c < n
            invariant
                c <= n,
                n == graph.clusters@.len(),
                a < graph.anchors@.len(),
                name@ == graph.anchors@[a as int]@,
                used@.len() == n,
                used0.len() == n,
                forall|k: int|
                    0 <= k < n ==> #[trigger] used0[k] == taken(*block, *graph, k, a as int),
                forall|k: int| c <= k < n ==> #[trigger] used@[k] == used0[k],
                forall|k: int|
                    0 <= k < c ==> #[trigger] used@[k] == taken(*block, *graph, k, a + 1),
                units_v(r@) == r1 + hung(*block, *graph, a as int, c as int),
                forall|k: int|
                    0 <= k < r@.len() ==> match #[trigger] r@[k] {
                        Unit::Cluster(c) => c < n,
                        Unit::Anchor(_) => true,
                    },
            decreases n - c,
        {
            let ghost rv = units_v(r@);
            let ghost was = used@;
            assert(used@[c as int] == used0[c as int]);
            let child = is_child(block, &graph.clusters[c], name);
            proof {
                lemma_taken(*block, *graph, c as int, a as int);
            }
            if !used[c] && child {
                used.set(c, true);
                r.push(Unit::Cluster(c));
                assert(units_v(r@) =~= rv.push(UnitV::Cluster(c as int)));
            }
            assert(units_v(r@) =~= r1 + hung(*block, *graph, a as int, c + 1));
            c += 1;
        }
        a += 1;
    }
    let ghost r2 = units_v(r@);
    assert(r2 =~= r2 + loose(*block, *graph, 0));
    let mut c: usize = 0;
    while c < n
        invariant
            c <= n,
            n == graph.clusters@.len(),
            a == graph.anchors@.len(),
            used@.len() == n,
            forall|k: int|
                0 <= k < n ==> #[trigger] used@[k] == taken(*block, *graph, k, a as int),
            units_v(r@) == r2 + loose(*block, *graph, c as int),
            forall|k: int|
                0 <= k < r@.len() ==> match #[trigger] r@[k] {
                    Unit::Cluster(c) => c < n,
                    Unit::Anchor(_) => true,
                },
        decreases n - c,
    {
        let ghost rv = units_v(r@);
        if !used[c] {
            r.push(Unit::Cluster(c));
            assert(units_v(r@) =~= rv.push(UnitV::Cluster(c as int)));
        }
        assert(units_v(r@) =~= r2 + loose(*block, *graph, c + 1));
        c += 1;
    }
    r
}

proof fn lemma_taken(b: Block, g: BlockGraph, c: int, a: int)
    requires
        0 <= a < g.anchors@.len(),
    ensures
        taken(b, g, c, a + 1) == (taken(b, g, c, a) || child_of(
            b,
            g.clusters@[c],
            g.anchors@[a]@,
        )),
{
    if taken(b, g, c, a + 1) {
        let k = choose|k: int|
            0 <= k < a + 1 && child_of(b, g.clusters@[c], #[trigger] g.anchors@[k]@);
        assert(k < a || k == a);
    }
    if taken(b, g, c, a) {
        let k = choose|k: int|
            0 <= k < a && child_of(b, g.clusters@[c], #[trigger] g.anchors@[k]@);
        assert(child_of(b, g.clusters@[c], g.anchors@[k]@));
    }
}

// ---------------------------------------------------------------- rows of units
pub open spec fn extent_ok(e: (i64, i64)) -> bool {
    -EXTENT_MAX <= e.0 <= EXTENT_MAX && -EXTENT_MAX <= e.1 <= EXTENT_MAX
}

pub open spec fn extents_ok(v: Seq<(i64, i64)>) -> bool {
    forall|i: int| 0 <= i < v.len() ==> extent_ok(#[trigger] v[i])
}

/// The area of the first `n` extents.
pub open spec fn area(v: Seq<(i64, i64)>, n: int) -> int
    decreases n,
{
    if n <= 0 {
        0
    } else {
        area(v, n - 1) + v[n - 1].0 * v[n - 1].1
    }
}

/// The width of the widest of the first `n` extents.
pub open spec fn widest(v: Seq<(i64, i64)>, n: int) -> int
    decreases n,
{
    if n <= 0 {
        0
    } else {
        geom::hi(widest(v, n - 1), v[n - 1].0 as int)
    }
}

/// Whether a row is too wide: wider than the widest unit, and than the side of a square with the
/// area of all units.
pub open spec fn too_wide(v: Seq<(i64, i64)>, w: int) -> bool {
    w > widest(v, v.len() as int) && w * w > area(v, v.len() as int)
}

/// Where a row ends that has come to unit `j` with the width `x`.
pub open spec fn row_end(v: Seq<(i64, i64)>, x: int, j: int) -> int
    decreases v.len() - j,
{
    if j < 0 || j >= v.len() || (x > 0 && too_wide(v, x + v[j].0)) {
        j
    } else {
        row_end(v, x + v[j].0, j + 1)
    }
}

/// The width of the units from `i` to `j`.
pub open spec fn span(v: Seq<(i64, i64)>, i: int, j: int) -> int
    decreases j - i,
{
    if j <= i {
        0
    } else {
        span(v, i, j - 1) + v[j - 1].0
    }
}

/// The height of the highest unit from `i` to `j`.
pub open spec fn tallest(v: Seq<(i64, i64)>, i: int, j: int) -> int
    decreases j - i,
{
    if j <= i {
        0
    } else {
        geom::hi(tallest(v, i, j - 1), v[j - 1].1 as int)
    }
}

/// The places of the units from `i` to `j`, in half units of length: one beside the other, each
/// in the middle of the row.
pub open spec fn row_places(v: Seq<(i64, i64)>, i: int, j: int, y: int, h: int) -> Seq<(int, int)> {
    Seq::new(
        (j - i) as nat,
        |k: int| (2 * span(v, i, i + k), 2 * y + h - v[i + k].1),
    )
}

pub struct RowsV {
    /// The top left corner of each unit, in half units of length.
    pub places: Seq<(int, int)>,
    pub width: int,
    pub height: int,
}

/// The rows from unit `i` on.
pub open spec fn rows_from(v: Seq<(i64, i64)>, s: RowsV, i: int) -> RowsV
    decreases v.len() - i,
{
    if i < 0 || i >= v.len() {
        s
    } else {
        let j = row_end(v, 0, i);
        if j <= i || j > v.len() {
            s
        } else {
            let h = tallest(v, i, j);
            rows_from(
                v,
                RowsV {
                    places: s.places + row_places(v, i, j, s.height, h),
                    width: geom::hi(s.width, span(v, i, j)),
                    height: s.height + h,
                },
                j,
            )
        }
    }
}

pub open spec fn rows_of(v: Seq<(i64, i64)>) -> RowsV {
    rows_from(v, RowsV { places: Seq::empty(), width: 0, height: 0 }, 0)
}

pub open spec fn wide_pairs(v: Seq<(i128, i128)>) -> Seq<(int, int)> {
    Seq::new(v.len(), |i: int| (v[i].0 as int, v[i].1 as int))
}

/// The packed units of a block.
#[derive(Debug, Clone)]
pub struct Rows {
    /// The top left corner of each unit, in half units of length.
    pub places: Vec<(i128, i128)>,
    pub width: i128,
    pub height: i128,
}

impl View for Rows {
    type V = RowsV;

    open spec fn view(&self) -> RowsV {
        RowsV {
            places: wide_pairs(self.places@),
            width: self.width as int,
            height: self.height as int,
        }
    }
}

proof fn lemma_product(a: int, b: int)
    requires
        -EXTENT_MAX <= a <= EXTENT_MAX,
        -EXTENT_MAX <= b <= EXTENT_MAX,
    ensures
        -0x4000_0000_0000_0000 <= a * b <= 0x4000_0000_0000_0000,
{
    assert(-0x4000_0000_0000_0000 <= a * b <= 0x4000_0000_0000_0000) by (nonlinear_arith)
        requires
            -0x8000_0000 <= a <= 0x8000_0000,
            -0x8000_0000 <= b <= 0x8000_0000,
    ;
}

proof fn lemma_square(w: int, total: int)
    requires
        total <= 0xFFFF_FFFF_FFFF_FFFF * 0x4000_0000_0000_0000,
        w > 0x8000_0000_0000_0000,
    ensures
        w * w > total,
{
    assert(w * w >= 0x8000_0000_0000_0000 * 0x8000_0000_0000_0000) by (nonlinear_arith)
        requires
            w > 0x8000_0000_0000_0000,
    ;
}

/// Whether a row of a width is too wide.
fn is_too_wide(w: i128, most: i64, total: i128) -> (r: bool)
    requires
        0 <= most,
        total <= 0xFFFF_FFFF_FFFF_FFFF * 0x4000_0000_0000_0000,
    ensures
        r == (w > most && w * w > total),
{
    if w <= most as i128 {
        return false;
    }
    if w > 0x8000_0000_0000_0000 {
        proof {
            lemma_square(w as int, total as int);
        }
        return true;
    }
    assert(0 <= w * w <= 0x8000_0000_0000_0000 * 0x8000_0000_0000_0000) by (nonlinear_arith)
        requires
            0 <= w <= 0x8000_0000_0000_0000,
    ;
    w * w > total
}

proof fn lemma_row_end(v: Seq<(i64, i64)>, x: int, j: int)
    requires
        0 <= j <= v.len(),
    ensures
        j <= row_end(v, x, j) <= v.len(),
        x == 0 && j < v.len() ==> row_end(v, x, j) > j,
    decreases v.len() - j,
{
    if j < v.len() && !(x > 0 && too_wide(v, x + v[j].0)) {
        lemma_row_end(v, x + v[j].0, j + 1);
    }
}

/// Packs units into rows that wrap at about the width of a square.
pub fn pack_units(v: &Vec<(i64, i64)>) -> (r: Rows)
    requires
        extents_ok(v@),
    ensures
        r@ == rows_of(v@),
        r.places@.len() == v@.len(),
        0 <= r.width <= 0x8000_0000 * v@.len(),
        0 <= r.height <= 0x8000_0000 * v@.len(),
        forall|i: int|
            0 <= i < r.places@.len() ==> near_place(#[trigger] r.places@[i], v@.len() as int),
{
    let n = v.len();
    let mut total: i128 = 0;
    let mut most: i64 = 0;
    let mut i: usize = 0;
    while i < n
        invariant
            i <= n,
            n == v@.len(),
            extents_ok(v@),
            total == area(v@, i as int),
            most == widest(v@, i as int),
            0 <= most,
            -0x4000_0000_0000_0000 * i <= total <= 0x4000_0000_0000_0000 * i,
        decreases n - i,
    {
        assert(extent_ok(v@[i as int]));
        proof {
            lemma_product(v@[i as int].0 as int, v@[i as int].1 as int);
        }
        let a = v[i].0 as i128 * v[i].1 as i128;
        assert(0 <= i <= 0xFFFF_FFFF_FFFF_FFFF);
        total = total + a;
        if v[i].0 > most {
            most = v[i].0;
        }
        i += 1;
    }
    let mut places: Vec<(i128, i128)> = Vec::new();
    let mut width: i128 = 0;
    let mut height: i128 = 0;
    let mut at: usize = 0;
    let ghost want = rows_of(v@);
    assert(wide_pairs(places@) =~= Seq::<(int, int)>::empty());
    while at < n
        invariant
            at <= n,
            n == v@.len(),
            extents_ok(v@),
            total == area(v@, n as int),
            most == widest(v@, n as int),
            0 <= most,
            total <= 0xFFFF_FFFF_FFFF_FFFF * 0x4000_0000_0000_0000,
            places@.len() == at,
            0 <= width <= 0x8000_0000 * at,
            0 <= height <= 0x8000_0000 * at,
            forall|k: int|
                0 <= k < places@.len() ==> near_place(#[trigger] places@[k], v@.len() as int),
            want == rows_from(
                v@,
                RowsV {
                    places: wide_pairs(places@),
                    width: width as int,
                    height: height as int,
                },
                at as int,
            ),
        decreases n - at,
    {
        let ghost p0 = wide_pairs(places@);
        proof {
            lemma_row_end(v@, 0, at as int);
        }
        let mut x: i128 = 0;
        let mut h: i64 = 0;
        let mut j: usize = at;
        let mut end: bool = false;
        while j < n && !end
            invariant
                at <= j <= n,
                n == v@.len(),
                extents_ok(v@),
                total == area(v@, n as int),
                most == widest(v@, n as int),
                0 <= most,
                total <= 0xFFFF_FFFF_FFFF_FFFF * 0x4000_0000_0000_0000,
                x == span(v@, at as int, j as int),
                h == tallest(v@, at as int, j as int),
                0 <= h <= EXTENT_MAX,
                -0x8000_0000 * (j - at) <= x <= 0x8000_0000 * (j - at),
                row_end(v@, 0, at as int) == row_end(v@, x as int, j as int),
                end ==> row_end(v@, 0, at as int) == j,
            decreases (n - j) + (if end { 0int } else { 1int }),
        {
            assert(extent_ok(v@[j as int]));
            let w = x + v[j].0 as i128;
            if x > 0 && is_too_wide(w, most, total) {
                end = true;
            } else {
                x = w;
                if v[j].1 > h {
                    h = v[j].1;
                }
                j += 1;
            }
        }
        assert(row_end(v@, 0, at as int) == j);
        let ghost row = row_places(v@, at as int, j as int, height as int, h as int);
        let mut k: usize = at;
        let mut left: i128 = 0;
        assert(wide_pairs(places@) =~= p0 + row.take(0));
        while k < j
            invariant
                at <= k <= j <= n,
                n == v@.len(),
                extents_ok(v@),
                places@.len() == k,
                0 <= h <= EXTENT_MAX,
                0 <= height <= 0x8000_0000 * at,
                left == span(v@, at as int, k as int),
                -0x8000_0000 * (k - at) <= left <= 0x8000_0000 * (k - at),
                row == row_places(v@, at as int, j as int, height as int, h as int),
                wide_pairs(places@) == p0 + row.take(k - at),
                forall|q: int|
                    0 <= q < places@.len() ==> near_place(
                        #[trigger] places@[q],
                        v@.len() as int,
                    ),
            decreases j - k,
        {
            assert(extent_ok(v@[k as int]));
            let ghost pl = places@;
            let p = (2 * left, 2 * height + h as i128 - v[k].1 as i128);
            assert(row[k - at] == (p.0 as int, p.1 as int));
            assert(near_place(p, v@.len() as int));
            places.push(p);
            assert(row.take(k - at + 1) =~= row.take(k - at).push(row[k - at]));
            assert(wide_pairs(places@) =~= wide_pairs(pl).push((p.0 as int, p.1 as int)));
            assert(wide_pairs(places@) =~= p0 + row.take(k - at + 1));
            left = left + v[k].0 as i128;
            k += 1;
        }
        assert(row.take(j - at) =~= row);
        if x > width {
            width = x;
        }
        height = height + h as i128;
        at = j;
    }
    Rows { places, width, height }
}

/// A place not farther than `n` units of the largest extent.
pub open spec fn near_place(p: (i128, i128), n: int) -> bool {
    -0x2_0000_0000 * (n + 1) <= p.0 <= 0x2_0000_0000 * (n + 1) && -0x2_0000_0000 * (n + 1) <= p.1
        <= 0x2_0000_0000 * (n + 1)
}

// ---------------------------------------------------------------- places on the sheet
/// The places so far.
pub struct SpotsV {
    pub pos: Seq<(Seq<char>, Pt)>,
    pub ang: Seq<(Seq<char>, i32)>,
    pub origins: Seq<(Seq<char>, Pt)>,
}

pub open spec fn spots_v(l: Layout) -> SpotsV {
    SpotsV {
        pos: reconcile::named(l.positions@),
        ang: reconcile::named(l.angles@),
        origins: reconcile::named(l.cluster_origins@),
    }
}

pub open spec fn spotted(s: SpotsV, r: Seq<char>, at: Pt, angle: i32) -> SpotsV {
    SpotsV {
        pos: order_map::put(s.pos, r, at),
        ang: order_map::put(s.ang, r, angle),
        origins: s.origins,
    }
}

/// With the first `n` members of a cluster around its origin.
pub open spec fn with_members(s: SpotsV, v: Seq<(String, Pt, i32)>, o: Pt, n: int) -> SpotsV
    decreases n,
{
    if n <= 0 {
        s
    } else {
        spotted(
            with_members(s, v, o, n - 1),
            v[n - 1].0@,
            emit::snapped_pt(o.x + v[n - 1].1.x, o.y + v[n - 1].1.y),
            v[n - 1].2,
        )
    }
}

/// What a unit takes of its block.
pub open spec fn extent_of(
    u: UnitV,
    gs: Seq<ClusterGeom>,
    sizes: Seq<(String, (i64, i64))>,
) -> (i64, i64) {
    match u {
        UnitV::Anchor(r) => (cell_for(r, sizes).0 as i64, cell_for(r, sizes).1 as i64),
        UnitV::Cluster(c) => if 0 <= c < gs.len() {
            (capped(gs[c].envelope.x as int) as i64, capped(gs[c].envelope.y as int) as i64)
        } else {
            (CELL, CELL)
        },
    }
}

pub open spec fn extents_of(
    v: Seq<UnitV>,
    gs: Seq<ClusterGeom>,
    sizes: Seq<(String, (i64, i64))>,
) -> Seq<(i64, i64)> {
    Seq::new(v.len(), |i: int| extent_of(v[i], gs, sizes))
}

/// With a unit at its place in the block: a component in the middle of its cell, a cluster from
/// its corner on.
pub open spec fn with_unit(
    s: SpotsV,
    name: Seq<char>,
    u: UnitV,
    e: (i64, i64),
    p: (int, int),
    gs: Seq<ClusterGeom>,
    at: Pt,
) -> SpotsV {
    match u {
        UnitV::Anchor(r) => spotted(
            s,
            r,
            emit::snapped_pt((2 * at.x + p.0 + e.0) / 2, (2 * at.y + p.1 + e.1) / 2),
            0,
        ),
        UnitV::Cluster(c) => {
            let o = emit::snapped_pt((2 * at.x + p.0) / 2, (2 * at.y + p.1) / 2);
            let t = SpotsV {
                origins: order_map::put(s.origins, reconcile::key_of_cluster(name, c as nat), o),
                ..s
            };
            if 0 <= c < gs.len() {
                with_members(t, gs[c].placements@, o, gs[c].placements@.len() as int)
            } else {
                t
            }
        },
    }
}

/// With the first `n` units of a block.
pub open spec fn with_units(
    s: SpotsV,
    name: Seq<char>,
    units: Seq<UnitV>,
    ext: Seq<(i64, i64)>,
    places: Seq<(int, int)>,
    gs: Seq<ClusterGeom>,
    at: Pt,
    n: int,
) -> SpotsV
    decreases n,
{
    if n <= 0 {
        s
    } else {
        with_unit(
            with_units(s, name, units, ext, places, gs, at, n - 1),
            name,
            units[n - 1],
            ext[n - 1],
            places[n - 1],
            gs,
            at,
        )
    }
}

/// With those of the first `n` components that have no place yet below one another from `y` on,
/// and where the next one would go.
pub open spec fn with_rest(
    s: SpotsV,
    v: Seq<(String, Component)>,
    sizes: Seq<(String, (i64, i64))>,
    x: i64,
    y: i64,
    n: int,
) -> (SpotsV, i64)
    decreases n,
{
    if n <= 0 {
        (s, y)
    } else {
        let t = with_rest(s, v, sizes, x, y, n - 1);
        let r = v[n - 1].0@;
        if order_map::look(t.0.pos, r) is Some {
            t
        } else {
            let c = cell_for(r, sizes);
            (
                spotted(t.0, r, emit::snapped_pt((2 * x + c.0) / 2, (2 * t.1 + c.1) / 2), 0),
                orient::cut(t.1 + c.1 + GAP),
            )
        }
    }
}

pub open spec fn units_for(
    graphs: Seq<(String, BlockGraph)>,
    name: Seq<char>,
    b: Block,
) -> Seq<UnitV> {
    match order_map::look(reconcile::named(graphs), name) {
        Some(g) => units_of(b, g),
        None => Seq::empty(),
    }
}

pub open spec fn geoms_for(geoms: Seq<(String, Vec<ClusterGeom>)>, name: Seq<char>) -> Seq<
    ClusterGeom,
> {
    match order_map::look(reconcile::named(geoms), name) {
        Some(v) => v@,
        None => Seq::empty(),
    }
}

/// What a circuit is placed by.
pub struct SourceV {
    pub sizes: Seq<(String, (i64, i64))>,
    pub graphs: Seq<(String, BlockGraph)>,
    pub geoms: Seq<(String, Vec<ClusterGeom>)>,
}

/// The rows of a block.
pub open spec fn block_rows(q: SourceV, name: Seq<char>, b: Block) -> RowsV {
    rows_of(extents_of(units_for(q.graphs, name, b), geoms_for(q.geoms, name), q.sizes))
}

/// With a block whose top left corner is given.
pub open spec fn with_block(s: SpotsV, q: SourceV, name: Seq<char>, b: Block, at: Pt) -> SpotsV {
    let units = units_for(q.graphs, name, b);
    let gs = geoms_for(q.geoms, name);
    let ext = extents_of(units, gs, q.sizes);
    let rows = rows_of(ext);
    let t = with_units(s, name, units, ext, rows.places, gs, at, units.len() as int);
    with_rest(
        t,
        b.components@,
        q.sizes,
        at.x,
        orient::cut(at.y + rows.height + GAP),
        b.components@.len() as int,
    ).0
}

/// A band while it is filled: where the next block goes, and how wide the band is.
pub struct BandV {
    pub s: SpotsV,
    pub y: i64,
    pub w: int,
    pub any: bool,
}

/// A band with those of the first `n` blocks that belong to it.
pub open spec fn filled(s: SpotsV, q: SourceV, v: Seq<(String, Block)>, rank: int, x: i64, n: int) -> BandV
    decreases n,
{
    if n <= 0 {
        BandV { s, y: MARGIN, w: 0, any: false }
    } else {
        let t = filled(s, q, v, rank, x, n - 1);
        let b = v[n - 1].1;
        if band_of(b.edge@) == rank {
            let rows = block_rows(q, v[n - 1].0@, b);
            BandV {
                s: with_block(t.s, q, v[n - 1].0@, b, Pt { x, y: t.y }),
                y: orient::cut(t.y + rows.height + GAP),
                w: geom::hi(t.w, rows.width),
                any: true,
            }
        } else {
            t
        }
    }
}

/// The places of the first `n` bands, and where the next one begins.
pub open spec fn bands(q: SourceV, v: Seq<(String, Block)>, n: int) -> (SpotsV, i64)
    decreases n,
{
    if n <= 0 {
        (SpotsV { pos: Seq::empty(), ang: Seq::empty(), origins: Seq::empty() }, MARGIN)
    } else {
        let t = bands(q, v, n - 1);
        let b = filled(t.0, q, v, n - 1, t.1, v.len() as int);
        (b.s, if b.any { orient::cut(t.1 + b.w + GAP) } else { t.1 })
    }
}

/// Every member of every cluster is a component of the block that the cluster is of.
pub open spec fn graphs_fit(v: Seq<(String, Block)>, graphs: Seq<(String, BlockGraph)>) -> bool {
    forall|i: int|
        0 <= i < v.len() ==> match order_map::look(
            reconcile::named(graphs),
            (#[trigger] v[i]).0@,
        ) {
            Some(g) => graph_fits(v[i].1, g),
            None => true,
        }
}

fn half(v: i128) -> (r: i128)
    requires
        v > i128::MIN + 1,
    ensures
        r == v as int / 2,
{
    if v >= 0 {
        v / 2
    } else {
        -((1 - v) / 2)
    }
}

fn put_spot<V: Copy>(v: &mut Vec<(String, V)>, k: &str, x: V)
    ensures
        reconcile::named(final(v)@) == order_map::put(reconcile::named(old(v)@), k@, x),
{
    let ghost m = reconcile::named(v@);
    let i = seek_name(v, k);
    if i < v.len() {
        v.set(i, (k.to_owned(), x));
        assert(reconcile::named(v@) =~= m.update(i as int, (k@, x)));
    } else {
        v.push((k.to_owned(), x));
        assert(reconcile::named(v@) =~= m.push((k@, x)));
    }
}

fn spot(l: &mut Layout, r: &str, at: Pt, angle: i32)
    ensures
        spots_v(*final(l)) == spotted(spots_v(*old(l)), r@, at, angle),
        final(l).joins@ == old(l).joins@,
{
    put_spot(&mut l.positions, r, at);
    put_spot(&mut l.angles, r, angle);
}

fn place_members(l: &mut Layout, v: &Vec<(String, Pt, i32)>, o: Pt)
    ensures
        spots_v(*final(l)) == with_members(spots_v(*old(l)), v@, o, v@.len() as int),
        final(l).joins@ == old(l).joins@,
{
    let ghost s = spots_v(*l);
    let ghost js = l.joins@;
    let mut i: usize = 0;
    while i < v.len()
        invariant
            i <= v@.len(),
            spots_v(*l) == with_members(s, v@, o, i as int),
            l.joins@ == js,
        decreases v@.len() - i,
    {
        let p = &v[i];
        spot(
            l,
            p.0.as_str(),
            snap_sum(o.x as i128 + p.1.x as i128, o.y as i128 + p.1.y as i128),
            p.2,
        );
        i += 1;
    }
}

fn unit_extent(u: &Unit, gs: &Vec<ClusterGeom>, sizes: &Vec<(String, (i64, i64))>) -> (r: (i64, i64))
    ensures
        r == extent_of(u@, gs@, sizes@),
        extent_ok(r),
{
    match u {
        Unit::Anchor(r) => cell_of(r.as_str(), sizes),
        Unit::Cluster(c) => if *c < gs.len() {
            let g = &gs[*c];
            (cap(g.envelope.x), cap(g.envelope.y))
        } else {
            (CELL, CELL)
        },
    }
}

fn unit_extents(
    v: &Vec<Unit>,
    gs: &Vec<ClusterGeom>,
    sizes: &Vec<(String, (i64, i64))>,
) -> (r: Vec<(i64, i64)>)
    ensures
        r@ == extents_of(units_v(v@), gs@, sizes@),
        extents_ok(r@),
{
    let mut r: Vec<(i64, i64)> = Vec::new();
    let mut i: usize = 0;
    while i < v.len()
        invariant
            i <= v@.len(),
            r@.len() == i,
            forall|k: int| 0 <= k < i ==> #[trigger] r@[k] == extent_of(v@[k]@, gs@, sizes@),
            extents_ok(r@),
        decreases v@.len() - i,
    {
        let e = unit_extent(&v[i], gs, sizes);
        r.push(e);
        i += 1;
    }
    assert(r@ =~= extents_of(units_v(v@), gs@, sizes@));
    r
}

fn place_unit(
    l: &mut Layout,
    name: &str,
    u: &Unit,
    e: (i64, i64),
    p: (i128, i128),
    gs: &Vec<ClusterGeom>,
    at: Pt,
)
    requires
        extent_ok(e),
        near_place(p, usize::MAX as int),
    ensures
        spots_v(*final(l)) == with_unit(
            spots_v(*old(l)),
            name@,
            u@,
            e,
            (p.0 as int, p.1 as int),
            gs@,
            at,
        ),
        final(l).joins@ == old(l).joins@,
{
    match u {
        Unit::Anchor(r) => {
            let x = half(2 * at.x as i128 + p.0 + e.0 as i128);
            let y = half(2 * at.y as i128 + p.1 + e.1 as i128);
            spot(l, r.as_str(), snap_sum(x, y), 0);
        },
        Unit::Cluster(c) => {
            let x = half(2 * at.x as i128 + p.0);
            let y = half(2 * at.y as i128 + p.1);
            let o = snap_sum(x, y);
            let key = cluster_key(name, *c);
            put_spot(&mut l.cluster_origins, key.as_str(), o);
            if *c < gs.len() {
                place_members(l, &gs[*c].placements, o);
            }
        },
    }
}

fn place_rest(
    l: &mut Layout,
    v: &Vec<(String, Component)>,
    sizes: &Vec<(String, (i64, i64))>,
    x: i64,
    y: i64,
)
    requires
        orient::fits(y as int),
    ensures
        spots_v(*final(l)) == with_rest(
            spots_v(*old(l)),
            v@,
            sizes@,
            x,
            y,
            v@.len() as int,
        ).0,
        final(l).joins@ == old(l).joins@,
{
    let ghost s = spots_v(*l);
    let ghost js = l.joins@;
    let mut at: i64 = y;
    let mut i: usize = 0;
    while i < v.len()
        invariant
            i <= v@.len(),
            (spots_v(*l), at) == with_rest(s, v@, sizes@, x, y, i as int),
            orient::fits(at as int),
            l.joins@ == js,
        decreases v@.len() - i,
    {
        let r = v[i].0.as_str();
        let known = find_named(&l.positions, r).is_some();
        if !known {
            let c = cell_of(r, sizes);
            let px = half(2 * x as i128 + c.0 as i128);
            let py = half(2 * at as i128 + c.1 as i128);
            spot(l, r, snap_sum(px, py), 0);
            at = cut_wide(at as i128 + c.1 as i128 + GAP as i128);
        }
        i += 1;
    }
}

/// Places a block whose top left corner is given; what comes back is its width and height.
fn place_block(
    l: &mut Layout,
    name: &str,
    block: &Block,
    sizes: &Vec<(String, (i64, i64))>,
    graphs: &Vec<(String, BlockGraph)>,
    geoms: &Vec<(String, Vec<ClusterGeom>)>,
    at: Pt,
) -> (r: (i128, i128))
    requires
        match order_map::look(reconcile::named(graphs@), name@) {
            Some(g) => graph_fits(*block, g),
            None => true,
        },
    ensures
        ({
            let q = SourceV { sizes: sizes@, graphs: graphs@, geoms: geoms@ };
            &&& spots_v(*final(l)) == with_block(spots_v(*old(l)), q, name@, *block, at)
            &&& r.0 == block_rows(q, name@, *block).width
            &&& r.1 == block_rows(q, name@, *block).height
        }),
        final(l).joins@ == old(l).joins@,
        0 <= r.0 <= 0x8000_0000 * usize::MAX,
        0 <= r.1 <= 0x8000_0000 * usize::MAX,
{
    let ghost s = spots_v(*l);
    let ghost js = l.joins@;
    let units: Vec<Unit> = match find_named(graphs, name) {
        Some(g) => block_units(block, g),
        None => Vec::new(),
    };
    assert(units_v(units@) =~= units_for(graphs@, name@, *block));
    let none: Vec<ClusterGeom> = Vec::new();
    assert(none@ =~= Seq::<ClusterGeom>::empty());
    let gs: &Vec<ClusterGeom> = match find_named(geoms, name) {
        Some(v) => v,
        None => &none,
    };
    assert(gs@ == geoms_for(geoms@, name@));
    let ext = unit_extents(&units, gs, sizes);
    let rows = pack_units(&ext);
    let n = units.len();
    assert(n <= usize::MAX);
    let ghost uv = units_v(units@);
    let ghost pv = wide_pairs(rows.places@);
    let mut i: usize = 0;
    while i < n
        invariant
            i <= n,
            n == units@.len(),
            n == ext@.len(),
            n == rows.places@.len(),
            uv == units_v(units@),
            pv == wide_pairs(rows.places@),
            extents_ok(ext@),
            forall|k: int|
                0 <= k < rows.places@.len() ==> near_place(#[trigger] rows.places@[k], n as int),
            spots_v(*l) == with_units(s, name@, uv, ext@, pv, gs@, at, i as int),
            l.joins@ == js,
        decreases n - i,
    {
        assert(extent_ok(ext@[i as int]));
        assert(near_place(rows.places@[i as int], n as int));
        assert(near_place(rows.places@[i as int], usize::MAX as int));
        assert(uv[i as int] == units@[i as int]@);
        place_unit(l, name, &units[i], ext[i], rows.places[i], gs, at);
        i += 1;
    }
    let y = cut_wide(at.y as i128 + rows.height + GAP as i128);
    place_rest(l, &block.components, sizes, at.x, y);
    (rows.width, rows.height)
}

/// Places the components of a circuit: blocks in bands from left to right, one below the other in
/// a band, and rows of units in a block.
pub fn place(
    design: &Design,
    sizes: &Vec<(String, (i64, i64))>,
    graphs: &Vec<(String, BlockGraph)>,
    geoms: &Vec<(String, Vec<ClusterGeom>)>,
) -> (r: Layout)
    requires
        graphs_fit(design.blocks@, graphs@),
    ensures
        spots_v(r) == bands(
            (SourceV { sizes: sizes@, graphs: graphs@, geoms: geoms@ }),
            design.blocks@,
            5,
        ).0,
        each_once(spots_v(r)),
        r.joins@.len() == 0,
{
    proof {
        nothing_is_placed_twice(
            SourceV { sizes: sizes@, graphs: graphs@, geoms: geoms@ },
            design.blocks@,
            5,
        );
    }
    let ghost q = SourceV { sizes: sizes@, graphs: graphs@, geoms: geoms@ };
    let v = &design.blocks;
    let mut l = Layout {
        positions: Vec::new(),
        angles: Vec::new(),
        cluster_origins: Vec::new(),
        joins: Vec::new(),
    };
    let mut x: i64 = MARGIN;
    let mut rank: u8 = 0;
    assert(spots_v(l).pos =~= Seq::empty());
    assert(spots_v(l).ang =~= Seq::empty());
    assert(spots_v(l).origins =~= Seq::empty());
    while rank < 5
        invariant
            rank <= 5,
            q == (SourceV { sizes: sizes@, graphs: graphs@, geoms: geoms@ }),
            graphs_fit(v@, graphs@),
            (spots_v(l), x) == bands(q, v@, rank as int),
            orient::fits(x as int),
            l.joins@.len() == 0,
        decreases 5 - rank,
    {
        let ghost s = spots_v(l);
        let mut y: i64 = MARGIN;
        let mut w: i128 = 0;
        let mut any: bool = false;
        let mut i: usize = 0;
        while i < v.len()
            invariant
                i <= v@.len(),
                rank < 5,
                q == (SourceV { sizes: sizes@, graphs: graphs@, geoms: geoms@ }),
                graphs_fit(v@, graphs@),
                orient::fits(y as int),
                0 <= w <= 0x8000_0000 * usize::MAX,
                l.joins@.len() == 0,
                (BandV { s: spots_v(l), y, w: w as int, any }) == filled(
                    s,
                    q,
                    v@,
                    rank as int,
                    x,
                    i as int,
                ),
            decreases v@.len() - i,
        {
            let b = &v[i].1;
            if band_rank(b.edge.as_str()) == rank {
                let e = place_block(
                    &mut l,
                    v[i].0.as_str(),
                    b,
                    sizes,
                    graphs,
                    geoms,
                    Pt { x, y },
                );
                y = cut_wide(y as i128 + e.1 + GAP as i128);
                if e.0 > w {
                    w = e.0;
                }
                any = true;
            }
            i += 1;
        }
        if any {
            x = cut_wide(x as i128 + w + GAP as i128);
        }
        rank += 1;
    }
    l
}

/// A later band begins no further left than an earlier one.
pub proof fn bands_go_left_to_right(q: SourceV, v: Seq<(String, Block)>, a: int, b: int)
    requires
        0 <= a <= b,
    ensures
        bands(q, v, a).1 <= bands(q, v, b).1,
    decreases b,
{
    lemma_band_start(q, v, b);
    if a < b {
        bands_go_left_to_right(q, v, a, b - 1);
        lemma_band_start(q, v, b - 1);
        lemma_band_width(bands(q, v, b - 1).0, q, v, b - 1, bands(q, v, b - 1).1, v.len() as int);
    }
}

proof fn lemma_band_start(q: SourceV, v: Seq<(String, Block)>, n: int)
    ensures
        orient::fits(bands(q, v, n).1 as int),
    decreases n,
{
    if n > 0 {
        lemma_band_start(q, v, n - 1);
    }
}

proof fn lemma_band_width(s: SpotsV, q: SourceV, v: Seq<(String, Block)>, rank: int, x: i64, n: int)
    ensures
        filled(s, q, v, rank, x, n).w >= 0,
    decreases n,
{
    if n > 0 {
        lemma_band_width(s, q, v, rank, x, n - 1);
    }
}

// ---------------------------------------------------------------- what holds of every placement
/// On the grid of the sheet.
pub open spec fn on_grid(p: Pt) -> bool {
    p.x % 127_000 == 0 && p.y % 127_000 == 0
}

pub open spec fn all_on_grid(v: Seq<(Seq<char>, Pt)>) -> bool {
    forall|i: int| 0 <= i < v.len() ==> on_grid((#[trigger] v[i]).1)
}

/// Whether all of a list of names have a place.
pub open spec fn all_placed(s: SpotsV, v: Seq<(String, Component)>, n: int) -> bool {
    forall|i: int| 0 <= i < n ==> order_map::look(s.pos, (#[trigger] v[i]).0@) is Some
}

/// Every name with a place in `s` has one in `t`.
pub open spec fn keeps(s: SpotsV, t: SpotsV) -> bool {
    forall|k: Seq<char>|
        order_map::look(s.pos, k) is Some ==> #[trigger] order_map::look(t.pos, k) is Some
}

proof fn lemma_spotted(s: SpotsV, r: Seq<char>, x: int, y: int, angle: i32)
    ensures
        ({
            let t = spotted(s, r, emit::snapped_pt(x, y), angle);
            &&& keeps(s, t)
            &&& order_map::look(t.pos, r) is Some
            &&& all_on_grid(s.pos) ==> all_on_grid(t.pos)
        }),
{
    order_map::put_then_look(s.pos, r, emit::snapped_pt(x, y));
    order_map::lemma_seek(s.pos, r, 0);
}

proof fn lemma_members(s: SpotsV, v: Seq<(String, Pt, i32)>, o: Pt, n: int)
    ensures
        keeps(s, with_members(s, v, o, n)),
        all_on_grid(s.pos) ==> all_on_grid(with_members(s, v, o, n).pos),
    decreases n,
{
    if n > 0 {
        lemma_members(s, v, o, n - 1);
        lemma_spotted(
            with_members(s, v, o, n - 1),
            v[n - 1].0@,
            o.x + v[n - 1].1.x,
            o.y + v[n - 1].1.y,
            v[n - 1].2,
        );
    }
}

proof fn lemma_units(
    s: SpotsV,
    name: Seq<char>,
    units: Seq<UnitV>,
    ext: Seq<(i64, i64)>,
    places: Seq<(int, int)>,
    gs: Seq<ClusterGeom>,
    at: Pt,
    n: int,
)
    ensures
        keeps(s, with_units(s, name, units, ext, places, gs, at, n)),
        all_on_grid(s.pos) ==> all_on_grid(
            with_units(s, name, units, ext, places, gs, at, n).pos,
        ),
    decreases n,
{
    if n > 0 {
        lemma_units(s, name, units, ext, places, gs, at, n - 1);
        let t = with_units(s, name, units, ext, places, gs, at, n - 1);
        let p = places[n - 1];
        let e = ext[n - 1];
        match units[n - 1] {
            UnitV::Anchor(r) => lemma_spotted(
                t,
                r,
                (2 * at.x + p.0 + e.0) / 2,
                (2 * at.y + p.1 + e.1) / 2,
                0,
            ),
            UnitV::Cluster(c) => {
                let o = emit::snapped_pt((2 * at.x + p.0) / 2, (2 * at.y + p.1) / 2);
                let t1 = SpotsV {
                    origins: order_map::put(
                        t.origins,
                        reconcile::key_of_cluster(name, c as nat),
                        o,
                    ),
                    ..t
                };
                if 0 <= c < gs.len() {
                    lemma_members(t1, gs[c].placements@, o, gs[c].placements@.len() as int);
                }
            },
        }
    }
}

proof fn lemma_rest(
    s: SpotsV,
    v: Seq<(String, Component)>,
    sizes: Seq<(String, (i64, i64))>,
    x: i64,
    y: i64,
    n: int,
)
    ensures
        keeps(s, with_rest(s, v, sizes, x, y, n).0),
        all_on_grid(s.pos) ==> all_on_grid(with_rest(s, v, sizes, x, y, n).0.pos),
        all_placed(with_rest(s, v, sizes, x, y, n).0, v, n),
    decreases n,
{
    if n > 0 {
        lemma_rest(s, v, sizes, x, y, n - 1);
        let t = with_rest(s, v, sizes, x, y, n - 1);
        let r = v[n - 1].0@;
        let c = cell_for(r, sizes);
        lemma_spotted(t.0, r, (2 * x + c.0) / 2, (2 * t.1 + c.1) / 2, 0);
        let u = with_rest(s, v, sizes, x, y, n).0;
        assert forall|i: int| 0 <= i < n implies order_map::look(
            u.pos,
            (#[trigger] v[i]).0@,
        ) is Some by {
            if i < n - 1 {
                assert(order_map::look(t.0.pos, v[i].0@) is Some);
            }
        }
    }
}

proof fn lemma_block(s: SpotsV, q: SourceV, name: Seq<char>, b: Block, at: Pt)
    ensures
        keeps(s, with_block(s, q, name, b, at)),
        all_on_grid(s.pos) ==> all_on_grid(with_block(s, q, name, b, at).pos),
        all_placed(
            with_block(s, q, name, b, at),
            b.components@,
            b.components@.len() as int,
        ),
{
    let units = units_for(q.graphs, name, b);
    let gs = geoms_for(q.geoms, name);
    let ext = extents_of(units, gs, q.sizes);
    let rows = rows_of(ext);
    lemma_units(s, name, units, ext, rows.places, gs, at, units.len() as int);
    lemma_rest(
        with_units(s, name, units, ext, rows.places, gs, at, units.len() as int),
        b.components@,
        q.sizes,
        at.x,
        orient::cut(at.y + rows.height + GAP),
        b.components@.len() as int,
    );
}

/// Whether the components of those of the first `n` blocks that belong to a band below `rank`
/// have places.
pub open spec fn blocks_placed(s: SpotsV, v: Seq<(String, Block)>, rank: int, n: int) -> bool {
    forall|i: int|
        0 <= i < n && band_of((#[trigger] v[i]).1.edge@) < rank ==> all_placed(
            s,
            v[i].1.components@,
            v[i].1.components@.len() as int,
        )
}

proof fn lemma_filled(s: SpotsV, q: SourceV, v: Seq<(String, Block)>, rank: int, x: i64, n: int)
    requires
        blocks_placed(s, v, rank, v.len() as int),
        0 <= n <= v.len(),
    ensures
        keeps(s, filled(s, q, v, rank, x, n).s),
        all_on_grid(s.pos) ==> all_on_grid(filled(s, q, v, rank, x, n).s.pos),
        blocks_placed(filled(s, q, v, rank, x, n).s, v, rank + 1, n),
        blocks_placed(filled(s, q, v, rank, x, n).s, v, rank, v.len() as int),
    decreases n,
{
    let u = filled(s, q, v, rank, x, n).s;
    if n > 0 {
        lemma_filled(s, q, v, rank, x, n - 1);
        let t = filled(s, q, v, rank, x, n - 1);
        let b = v[n - 1].1;
        lemma_block(t.s, q, v[n - 1].0@, b, Pt { x, y: t.y });
        assert(keeps(t.s, u));
        assert forall|i: int| 0 <= i < n && band_of((#[trigger] v[i]).1.edge@) < rank + 1 implies all_placed(
            u,
            v[i].1.components@,
            v[i].1.components@.len() as int,
        ) by {
            let c = v[i].1.components@;
            if i < n - 1 {
                assert(all_placed(t.s, c, c.len() as int));
                lemma_still(t.s, u, c);
            } else if band_of(v[i].1.edge@) < rank {
                assert(all_placed(t.s, c, c.len() as int));
                lemma_still(t.s, u, c);
            }
        }
        assert forall|i: int| 0 <= i < v.len() && band_of((#[trigger] v[i]).1.edge@) < rank implies all_placed(
            u,
            v[i].1.components@,
            v[i].1.components@.len() as int,
        ) by {
            let c = v[i].1.components@;
            assert(all_placed(t.s, c, c.len() as int));
            lemma_still(t.s, u, c);
        }
    }
}

proof fn lemma_still(s: SpotsV, t: SpotsV, v: Seq<(String, Component)>)
    requires
        keeps(s, t),
        all_placed(s, v, v.len() as int),
    ensures
        all_placed(t, v, v.len() as int),
{
    assert forall|i: int| 0 <= i < v.len() implies order_map::look(
        t.pos,
        (#[trigger] v[i]).0@,
    ) is Some by {
        assert(order_map::look(s.pos, v[i].0@) is Some);
    }
}

proof fn lemma_bands(q: SourceV, v: Seq<(String, Block)>, n: int)
    requires
        0 <= n,
    ensures
        all_on_grid(bands(q, v, n).0.pos),
        blocks_placed(bands(q, v, n).0, v, n, v.len() as int),
    decreases n,
{
    if n > 0 {
        lemma_bands(q, v, n - 1);
        lemma_filled(
            bands(q, v, n - 1).0,
            q,
            v,
            n - 1,
            bands(q, v, n - 1).1,
            v.len() as int,
        );
    } else {
        assert forall|i: int| 0 <= i < v.len() implies band_of((#[trigger] v[i]).1.edge@) >= 0 by {}
    }
}

/// Every component of a circuit gets a place, and every place is on the grid.
pub proof fn everything_is_placed_on_the_grid(q: SourceV, v: Seq<(String, Block)>, i: int)
    requires
        0 <= i < v.len(),
    ensures
        all_on_grid(bands(q, v, 5).0.pos),
        all_placed(
            bands(q, v, 5).0,
            v[i].1.components@,
            v[i].1.components@.len() as int,
        ),
{
    lemma_bands(q, v, 5);
    assert(band_of(v[i].1.edge@) < 5);
}

// ---------------------------------------------------------------- no key twice
/// Whether no component and no cluster has two places.
pub open spec fn each_once(s: SpotsV) -> bool {
    order_map::keys_once(s.pos) && order_map::keys_once(s.ang) && order_map::keys_once(s.origins)
}

proof fn lemma_spotted_once(s: SpotsV, r: Seq<char>, at: Pt, angle: i32)
    requires
        each_once(s),
    ensures
        each_once(spotted(s, r, at, angle)),
{
    order_map::putting_keeps_keys_once(s.pos, r, at);
    order_map::putting_keeps_keys_once(s.ang, r, angle);
}

proof fn lemma_members_once(s: SpotsV, v: Seq<(String, Pt, i32)>, o: Pt, n: int)
    requires
        each_once(s),
    ensures
        each_once(with_members(s, v, o, n)),
    decreases n,
{
    if n > 0 {
        lemma_members_once(s, v, o, n - 1);
        lemma_spotted_once(
            with_members(s, v, o, n - 1),
            v[n - 1].0@,
            emit::snapped_pt(o.x + v[n - 1].1.x, o.y + v[n - 1].1.y),
            v[n - 1].2,
        );
    }
}

proof fn lemma_units_once(
    s: SpotsV,
    name: Seq<char>,
    units: Seq<UnitV>,
    ext: Seq<(i64, i64)>,
    places: Seq<(int, int)>,
    gs: Seq<ClusterGeom>,
    at: Pt,
    n: int,
)
    requires
        each_once(s),
    ensures
        each_once(with_units(s, name, units, ext, places, gs, at, n)),
    decreases n,
{
    if n > 0 {
        lemma_units_once(s, name, units, ext, places, gs, at, n - 1);
        let t = with_units(s, name, units, ext, places, gs, at, n - 1);
        let (e, p) = (ext[n - 1], places[n - 1]);
        match units[n - 1] {
            UnitV::Anchor(r) => lemma_spotted_once(
                t,
                r,
                emit::snapped_pt((2 * at.x + p.0 + e.0) / 2, (2 * at.y + p.1 + e.1) / 2),
                0,
            ),
            UnitV::Cluster(c) => {
                let o = emit::snapped_pt((2 * at.x + p.0) / 2, (2 * at.y + p.1) / 2);
                let k = reconcile::key_of_cluster(name, c as nat);
                order_map::putting_keeps_keys_once(t.origins, k, o);
                let u = SpotsV { origins: order_map::put(t.origins, k, o), ..t };
                if 0 <= c < gs.len() {
                    lemma_members_once(u, gs[c].placements@, o, gs[c].placements@.len() as int);
                }
            },
        }
    }
}

proof fn lemma_rest_once(
    s: SpotsV,
    v: Seq<(String, Component)>,
    sizes: Seq<(String, (i64, i64))>,
    x: i64,
    y: i64,
    n: int,
)
    requires
        each_once(s),
    ensures
        each_once(with_rest(s, v, sizes, x, y, n).0),
    decreases n,
{
    if n > 0 {
        lemma_rest_once(s, v, sizes, x, y, n - 1);
        let t = with_rest(s, v, sizes, x, y, n - 1);
        let c = cell_for(v[n - 1].0@, sizes);
        lemma_spotted_once(
            t.0,
            v[n - 1].0@,
            emit::snapped_pt((2 * x + c.0) / 2, (2 * t.1 + c.1) / 2),
            0,
        );
    }
}

proof fn lemma_filled_once(
    s: SpotsV,
    q: SourceV,
    v: Seq<(String, Block)>,
    rank: int,
    x: i64,
    n: int,
)
    requires
        each_once(s),
    ensures
        each_once(filled(s, q, v, rank, x, n).s),
    decreases n,
{
    if n > 0 {
        lemma_filled_once(s, q, v, rank, x, n - 1);
        let t = filled(s, q, v, rank, x, n - 1);
        let name = v[n - 1].0@;
        let b = v[n - 1].1;
        let at = Pt { x, y: t.y };
        let units = units_for(q.graphs, name, b);
        let gs = geoms_for(q.geoms, name);
        let ext = extents_of(units, gs, q.sizes);
        let rows = rows_of(ext);
        lemma_units_once(t.s, name, units, ext, rows.places, gs, at, units.len() as int);
        lemma_rest_once(
            with_units(t.s, name, units, ext, rows.places, gs, at, units.len() as int),
            b.components@,
            q.sizes,
            at.x,
            orient::cut(at.y + rows.height + GAP),
            b.components@.len() as int,
        );
    }
}

/// The placer gives each component one place and one angle, and each cluster one origin.
pub proof fn nothing_is_placed_twice(q: SourceV, v: Seq<(String, Block)>, n: int)
    ensures
        each_once(bands(q, v, n).0),
    decreases n,
{
    if n > 0 {
        nothing_is_placed_twice(q, v, n - 1);
        let t = bands(q, v, n - 1);
        lemma_filled_once(t.0, q, v, n - 1, t.1, v.len() as int);
    }
}

} // verus!
