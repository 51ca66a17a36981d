//! How a measured layout tree spreads its parts: children of a row or a column follow each other
//! without overlap and span the room that was measured for them.
use crate::check::AreaV;
use crate::flex;
use crate::flex::{Kind, MV};
use crate::geo;
use crate::geom::GRID;
use crate::group::Frame;
use crate::measure;
use crate::measure::PlaceV;
use crate::model_json;
use crate::orient;
use crate::orient::{Room, LIMIT};
use crate::tree::StyleV;
use vstd::prelude::*;

verus! {

// ---------------------------------------------------------------- rooms
/// The size of a node along a row or a column.
pub open spec fn size_along(c: MV, row: bool) -> int {
    if row {
        c.room.w as int
    } else {
        c.room.h as int
    }
}

/// The size of a node across a row or a column.
pub open spec fn size_across(c: MV, row: bool) -> int {
    if row {
        c.room.h as int
    } else {
        c.room.w as int
    }
}

/// The line of a node across a row or a column.
pub open spec fn line_across(c: MV, row: bool) -> int {
    if row {
        c.room.ay as int
    } else {
        c.room.ax as int
    }
}

pub open spec fn is_row(k: MV) -> bool {
    k.kind == Kind::Row
}

/// How far from the beginning of a container child `i` begins: where a column lists offsets, at its
/// offset; else behind the sizes of the children before it, with a gap between any two.
pub open spec fn lead(k: MV, i: int) -> int
    decreases i,
{
    match k.offsets {
        Some(o) if k.kind == Kind::Col && 0 <= i < o.len() => o[i] as int,
        _ => if i <= 0 {
            0
        } else {
            lead(k, i - 1) + size_along(k.children[i - 1], is_row(k)) + k.gap
        },
    }
}

/// Whether there is room across a container for a child, as children are aligned.
pub open spec fn fits_across(k: MV, c: MV) -> bool {
    let row = is_row(k);
    if k.align == "center"@ {
        &&& line_across(c, row) <= line_across(k, row)
        &&& size_across(c, row) - line_across(c, row) <= size_across(k, row) - line_across(k, row)
    } else {
        size_across(c, row) <= size_across(k, row)
    }
}

/// Whether the children of a container have room in it, one behind the other.
pub open spec fn has_room(k: MV) -> bool {
    let n = k.children.len() as int;
    let row = is_row(k);
    &&& k.offsets is Some && k.kind == Kind::Col ==> k.offsets->0.len() == n
    &&& n > 0 ==> 0 <= lead(k, 0) && lead(k, n - 1) + size_along(k.children[n - 1], row)
        <= size_along(k, row)
    &&& forall|i: int|
        0 < i < n ==> #[trigger] lead(k, i) >= lead(k, i - 1) + size_along(k.children[i - 1], row)
    &&& forall|i: int| 0 <= i < n ==> fits_across(k, #[trigger] k.children[i])
}

/// Whether the lines and the anchor of a leaf lie in its room.
pub open spec fn lines_inside(r: Room) -> bool {
    &&& 0 <= r.ax <= r.w
    &&& 0 <= r.aax <= r.w
    &&& 0 <= r.ay <= r.h
    &&& 0 <= r.aay <= r.h
}

/// Whether each container of a tree has room for its children, all the way down.
pub open spec fn roomy(k: MV) -> bool
    decreases k,
{
    &&& 0 <= k.room.w
    &&& 0 <= k.room.h
    &&& k.kind == Kind::Leaf ==> lines_inside(k.room)
    &&& k.kind != Kind::Leaf ==> has_room(k)
    &&& k.kind != Kind::Leaf ==> forall|i: int|
        0 <= i < k.children.len() ==> roomy(#[trigger] k.children[i])
}

// ---------------------------------------------------------------- leaves
/// The leaves of a tree that stand for parts, in order.
pub open spec fn leaves(f: Frame, k: MV) -> Seq<MV>
    decreases k, 0nat,
{
    if k.kind == Kind::Leaf {
        if flex::known(f, k) {
            seq![k]
        } else {
            Seq::empty()
        }
    } else {
        leaves_in(f, k.children, k.children.len())
    }
}

/// The leaves of the first `n` of some trees.
pub open spec fn leaves_in(f: Frame, v: Seq<MV>, n: nat) -> Seq<MV>
    decreases v, n,
{
    if n == 0 || n > v.len() {
        Seq::empty()
    } else {
        leaves_in(f, v, (n - 1) as nat) + leaves(f, v[n - 1])
    }
}

/// Whether one area lies in another.
pub open spec fn within(a: AreaV, b: AreaV) -> bool {
    b.x0 <= a.x0 && a.x1 <= b.x1 && b.y0 <= a.y0 && a.y1 <= b.y1
}

/// Whether two areas lie beside each other or one above the other.
pub open spec fn apart(a: AreaV, b: AreaV) -> bool {
    a.x1 <= b.x0 || b.x1 <= a.x0 || a.y1 <= b.y0 || b.y1 <= a.y0
}

/// The area of a node that begins at a point.
pub open spec fn area_at(k: MV, x: int, y: int) -> AreaV {
    AreaV { x0: x, y0: y, x1: x + k.room.w, y1: y + k.room.h }
}

/// Whether a part stands where an area of the size of its leaf says, up to one and a half steps of
/// the grid, and on the grid.
pub open spec fn stands_in(f: Frame, k: MV, a: AreaV, p: PlaceV) -> bool {
    &&& a.x1 == a.x0 + k.room.w
    &&& a.y1 == a.y0 + k.room.h
    &&& p.key == flex::part_of(f, k).key@
    &&& p.rot == k.rot
    &&& p.mirror == k.mirror
    &&& p.at.x % 127_000 == 0
    &&& p.at.y % 127_000 == 0
    &&& -190_500 <= p.at.x - (a.x0 + k.room.aax) <= 190_500
    &&& -190_500 <= p.at.y - (a.y0 + k.room.aay) <= 190_500
}

/// Whether areas, one for each leaf, lie in an area, no two of them overlap, and the part of each
/// leaf stands in its area.
pub open spec fn spreads(
    f: Frame,
    ks: Seq<MV>,
    areas: Seq<AreaV>,
    ps: Seq<PlaceV>,
    all: AreaV,
) -> bool {
    &&& areas.len() == ks.len()
    &&& ps.len() == ks.len()
    &&& forall|i: int| 0 <= i < ks.len() ==> within(#[trigger] areas[i], all)
    &&& forall|i: int| 0 <= i < ks.len() ==> #[trigger] stands_in(f, ks[i], areas[i], ps[i])
    &&& forall|i: int, j: int|
        0 <= i < j < ks.len() ==> apart(#[trigger] areas[i], #[trigger] areas[j])
}

// ---------------------------------------------------------------- anchors
proof fn lemma_even_quotient(a: int)
    ensures
        -63_500 <= model_json::even_quotient(a, 127_000) * 127_000 - a <= 63_500,
        (model_json::even_quotient(a, 127_000) * 127_000) % 127_000 == 0,
{
    let m = if a < 0 { -a } else { a };
    let q = m / 127_000;
    assert(m == 127_000 * q + m % 127_000);
}

proof fn lemma_anchor(v: i64, line: i64, own: i64)
    requires
        orient::fits(v as int),
        orient::fits(v + line),
        orient::fits(v + own),
    ensures
        -190_500 <= measure::anchor(v, line, own) - (v + own) <= 190_500,
        measure::anchor(v, line, own) % 127_000 == 0,
{
    let l = geo::snap_even_spec(orient::cut(v + line) as int);
    geo::lemma_snap_even(v + line);
    let a = orient::cut(l - (line - own));
    assert(-127_000 <= l - (v + line) <= 127_000);
    assert(-127_000 <= a - (v + own) <= 127_000);
    lemma_even_quotient(a as int);
    let r = model_json::even_quotient(a as int, GRID as int) * GRID;
    assert((r as i64) == r);
}

// ---------------------------------------------------------------- one container
/// Whether a node that begins at a point lies on the sheet that lengths can tell.
pub open spec fn in_reach(k: MV, x: int, y: int) -> bool {
    &&& orient::fits(x)
    &&& orient::fits(y)
    &&& orient::fits(x + k.room.w)
    &&& orient::fits(y + k.room.h)
}

proof fn lemma_lead(k: MV, i: int, j: int)
    requires
        roomy(k),
        k.kind != Kind::Leaf,
        0 <= i <= j < k.children.len(),
    ensures
        0 <= lead(k, i),
        i < j ==> lead(k, i) + size_along(k.children[i], is_row(k)) <= lead(k, j),
        i == j ==> lead(k, i) + size_along(k.children[i], is_row(k)) <= size_along(k, is_row(k)),
    decreases j - i, i,
{
    let n = k.children.len() as int;
    assert(roomy(k.children[i]));
    if i < j {
        assert(lead(k, i + 1) >= lead(k, i + 1 - 1) + size_along(k.children[i + 1 - 1], is_row(k)));
        lemma_lead(k, i + 1, j);
        assert(roomy(k.children[i + 1]));
    }
    lemma_lead_low(k, i);
    if i == j && i < n - 1 {
        lemma_lead_high(k, i);
    }
}

proof fn lemma_lead_low(k: MV, i: int)
    requires
        roomy(k),
        k.kind != Kind::Leaf,
        0 <= i < k.children.len(),
    ensures
        0 <= lead(k, i),
    decreases i,
{
    if i > 0 {
        lemma_lead_low(k, i - 1);
        assert(roomy(k.children[i - 1]));
        assert(lead(k, i) >= lead(k, i - 1) + size_along(k.children[i - 1], is_row(k)));
    }
}

proof fn lemma_lead_high(k: MV, i: int)
    requires
        roomy(k),
        k.kind != Kind::Leaf,
        0 <= i < k.children.len(),
    ensures
        lead(k, i) + size_along(k.children[i], is_row(k)) <= size_along(k, is_row(k)),
    decreases k.children.len() - i,
{
    let n = k.children.len() as int;
    if i < n - 1 {
        lemma_lead_high(k, i + 1);
        assert(roomy(k.children[i + 1]));
        assert(lead(k, i + 1) >= lead(k, i + 1 - 1) + size_along(k.children[i + 1 - 1], is_row(k)));
    }
}

proof fn lemma_child_at(k: MV, base: i64, i: int)
    requires
        roomy(k),
        k.kind != Kind::Leaf,
        0 <= i < k.children.len(),
        orient::fits(base as int),
        orient::fits(base + size_along(k, is_row(k))),
    ensures
        measure::child_at(k, base, i) == base + lead(k, i),
    decreases i,
{
    lemma_lead_low(k, i);
    lemma_lead_high(k, i);
    assert(roomy(k.children[i]));
    if i > 0 {
        lemma_child_at(k, base, i - 1);
    }
}

proof fn lemma_child_across(k: MV, base: i64, i: int)
    requires
        roomy(k),
        k.kind != Kind::Leaf,
        0 <= i < k.children.len(),
        orient::fits(base as int),
        orient::fits(base + size_across(k, is_row(k))),
    ensures
        base <= measure::child_across(k, base, k.children[i]),
        measure::child_across(k, base, k.children[i]) + size_across(k.children[i], is_row(k))
            <= base + size_across(k, is_row(k)),
        k.align == "center"@ ==> measure::child_across(k, base, k.children[i]) + line_across(
            k.children[i],
            is_row(k),
        ) == base + line_across(k, is_row(k)),
        k.align == "end"@ && k.align != "center"@ ==> measure::child_across(k, base, k.children[i])
            + size_across(k.children[i], is_row(k)) == base + size_across(k, is_row(k)),
        k.align != "end"@ && k.align != "center"@ ==> measure::child_across(
            k,
            base,
            k.children[i],
        ) == base,
{
    assert(roomy(k.children[i]));
    assert(fits_across(k, k.children[i]));
}

/// Where child `i` of a container that begins at a point begins.
spec fn child_x(k: MV, x: i64, i: int) -> i64 {
    if is_row(k) {
        measure::child_at(k, x, i)
    } else {
        measure::child_across(k, x, k.children[i])
    }
}

spec fn child_y(k: MV, y: i64, i: int) -> i64 {
    if is_row(k) {
        measure::child_across(k, y, k.children[i])
    } else {
        measure::child_at(k, y, i)
    }
}

proof fn lemma_child(k: MV, x: i64, y: i64, i: int)
    requires
        roomy(k),
        k.kind != Kind::Leaf,
        0 <= i < k.children.len(),
        in_reach(k, x as int, y as int),
    ensures
        within(
            area_at(k.children[i], child_x(k, x, i) as int, child_y(k, y, i) as int),
            area_at(k, x as int, y as int),
        ),
        in_reach(k.children[i], child_x(k, x, i) as int, child_y(k, y, i) as int),
        roomy(k.children[i]),
        (if is_row(k) {
            child_x(k, x, i) - x
        } else {
            child_y(k, y, i) - y
        }) == lead(k, i),
{
    assert(roomy(k.children[i]));
    lemma_lead_low(k, i);
    lemma_lead_high(k, i);
    if is_row(k) {
        lemma_child_at(k, x, i);
        lemma_child_across(k, y, i);
    } else {
        lemma_child_at(k, y, i);
        lemma_child_across(k, x, i);
    }
}

proof fn lemma_children_apart(k: MV, x: i64, y: i64, i: int, j: int)
    requires
        roomy(k),
        k.kind != Kind::Leaf,
        0 <= i < j < k.children.len(),
        in_reach(k, x as int, y as int),
    ensures
        apart(
            area_at(k.children[i], child_x(k, x, i) as int, child_y(k, y, i) as int),
            area_at(k.children[j], child_x(k, x, j) as int, child_y(k, y, j) as int),
        ),
{
    lemma_child(k, x, y, i);
    lemma_child(k, x, y, j);
    lemma_lead(k, i, j);
}

proof fn lemma_flat(v: Seq<Seq<PlaceV>>, w: Seq<PlaceV>)
    ensures
        v.push(w).flatten() == v.flatten() + w,
    decreases v.len(),
{
    if v.len() == 0 {
        let none: Seq<Seq<PlaceV>> = Seq::empty();
        assert(v =~= none);
        assert(v.push(w).drop_first() =~= none);
        assert(v.push(w).first() == w);
        assert(none.flatten() =~= Seq::empty());
        assert(v.push(w).flatten() == w.add(none.flatten()));
        assert(v.push(w).flatten() =~= v.flatten() + w);
    } else {
        lemma_flat(v.drop_first(), w);
        assert(v.push(w).drop_first() =~= v.drop_first().push(w));
        assert(v.push(w).first() == v.first());
        assert(v.push(w).flatten() =~= v.flatten() + w);
    }
}

proof fn lemma_placed_in(f: Frame, k: MV, x: i64, y: i64, n: nat)
    requires
        n <= k.children.len(),
    ensures
        measure::placed_in(f, k, k.children, x, y, n) == Seq::new(
            n,
            |i: int| measure::placed(f, k.children[i], child_x(k, x, i), child_y(k, y, i)),
        ).flatten(),
    decreases n,
{
    let v = Seq::new(
        n,
        |i: int| measure::placed(f, k.children[i], child_x(k, x, i), child_y(k, y, i)),
    );
    if n > 0 {
        lemma_placed_in(f, k, x, y, (n - 1) as nat);
        let u = Seq::new(
            (n - 1) as nat,
            |i: int| measure::placed(f, k.children[i], child_x(k, x, i), child_y(k, y, i)),
        );
        let w = measure::placed(f, k.children[n - 1], child_x(k, x, n - 1), child_y(k, y, n - 1));
        assert(v =~= u.push(w));
        lemma_flat(u, w);
    } else {
        assert(v.len() == 0);
    }
}

/// Whether children of a row begin at these points: the first where the row begins, each other
/// where the one before it ends and a gap later; across the row they keep inside it, on one line
/// where the row is centred, else along one of its edges.
pub open spec fn in_a_row(k: MV, x: int, y: int, at: Seq<(i64, i64)>) -> bool {
    &&& at.len() == k.children.len()
    &&& at.len() > 0 ==> at[0].0 == x
    &&& forall|i: int|
        0 <= i < at.len() - 1 ==> (#[trigger] at[i + 1]).0 == at[i].0 + k.children[i].room.w
            + k.gap
    &&& forall|i: int|
        0 <= i < at.len() ==> y <= (#[trigger] at[i]).1 && at[i].1 + k.children[i].room.h <= y
            + k.room.h && at[i].0 + k.children[i].room.w <= x + k.room.w
    &&& k.align == "center"@ ==> forall|i: int|
        0 <= i < at.len() ==> (#[trigger] at[i]).1 + k.children[i].room.ay == y + k.room.ay
    &&& k.align == "end"@ && k.align != "center"@ ==> forall|i: int|
        0 <= i < at.len() ==> (#[trigger] at[i]).1 + k.children[i].room.h == y + k.room.h
    &&& k.align != "end"@ && k.align != "center"@ ==> forall|i: int|
        0 <= i < at.len() ==> (#[trigger] at[i]).1 == y
}

/// The parts of a row are those of its children, one child behind the other.
#[verifier::spinoff_prover]
#[verifier::rlimit(40)]
pub proof fn a_row_puts_its_children_side_by_side(f: Frame, k: MV, x: i64, y: i64)
    requires
        k.kind == Kind::Row,
        roomy(k),
        in_reach(k, x as int, y as int),
    ensures
        exists|at: Seq<(i64, i64)>| #[trigger]
            in_a_row(k, x as int, y as int, at) && measure::placed(f, k, x, y) == Seq::new(
                k.children.len(),
                |i: int| measure::placed(f, k.children[i], at[i].0, at[i].1),
            ).flatten(),
{
    let n = k.children.len();
    let at = Seq::new(n, |i: int| (child_x(k, x, i), child_y(k, y, i)));
    lemma_placed_in(f, k, x, y, n);
    assert(Seq::new(n, |i: int| measure::placed(f, k.children[i], at[i].0, at[i].1))
        =~= Seq::new(
        n,
        |i: int| measure::placed(f, k.children[i], child_x(k, x, i), child_y(k, y, i)),
    ));
    assert forall|i: int| 0 <= i < at.len() - 1 implies (#[trigger] at[i + 1]).0 == at[i].0
        + k.children[i].room.w + k.gap by {
        lemma_child(k, x, y, i);
        lemma_child(k, x, y, i + 1);
    }
    assert forall|i: int| 0 <= i < at.len() implies y <= (#[trigger] at[i]).1 && at[i].1
        + k.children[i].room.h <= y + k.room.h && at[i].0 + k.children[i].room.w <= x
        + k.room.w && (k.align == "center"@ ==> at[i].1 + k.children[i].room.ay == y + k.room.ay)
        && (k.align == "end"@ && k.align != "center"@ ==> at[i].1 + k.children[i].room.h == y
        + k.room.h) && (k.align != "end"@ && k.align != "center"@ ==> at[i].1 == y) by {
        lemma_child(k, x, y, i);
        lemma_child_across(k, y, i);
    }
    if n > 0 {
        lemma_child(k, x, y, 0);
    }
    assert(in_a_row(k, x as int, y as int, at));
}

/// Whether children of a column begin at these points: without offsets the first where the column
/// begins and each other where the one before it ends and a gap later, with offsets at these;
/// across the column they keep inside it.
pub open spec fn in_a_column(k: MV, x: int, y: int, at: Seq<(i64, i64)>) -> bool {
    &&& at.len() == k.children.len()
    &&& at.len() > 0 ==> at[0].1 >= y
    &&& k.offsets is None && at.len() > 0 ==> at[0].1 == y
    &&& k.offsets is None ==> forall|i: int|
        0 <= i < at.len() - 1 ==> (#[trigger] at[i + 1]).1 == at[i].1 + k.children[i].room.h
            + k.gap
    &&& k.offsets is Some ==> forall|i: int|
        0 <= i < at.len() ==> (#[trigger] at[i]).1 == y + k.offsets->0[i]
    &&& forall|i: int|
        0 <= i < at.len() - 1 ==> (#[trigger] at[i + 1]).1 >= at[i].1 + k.children[i].room.h
    &&& forall|i: int|
        0 <= i < at.len() ==> x <= (#[trigger] at[i]).0 && at[i].0 + k.children[i].room.w <= x
            + k.room.w && at[i].1 + k.children[i].room.h <= y + k.room.h
    &&& k.align == "center"@ ==> forall|i: int|
        0 <= i < at.len() ==> (#[trigger] at[i]).0 + k.children[i].room.ax == x + k.room.ax
    &&& k.align == "end"@ && k.align != "center"@ ==> forall|i: int|
        0 <= i < at.len() ==> (#[trigger] at[i]).0 + k.children[i].room.w == x + k.room.w
    &&& k.align != "end"@ && k.align != "center"@ ==> forall|i: int|
        0 <= i < at.len() ==> (#[trigger] at[i]).0 == x
}

/// The parts of a column are those of its children, one child below the other.
#[verifier::spinoff_prover]
#[verifier::rlimit(40)]
pub proof fn a_column_puts_its_children_below_each_other(f: Frame, k: MV, x: i64, y: i64)
    requires
        k.kind == Kind::Col,
        roomy(k),
        in_reach(k, x as int, y as int),
    ensures
        exists|at: Seq<(i64, i64)>| #[trigger]
            in_a_column(k, x as int, y as int, at) && measure::placed(f, k, x, y) == Seq::new(
                k.children.len(),
                |i: int| measure::placed(f, k.children[i], at[i].0, at[i].1),
            ).flatten(),
{
    let n = k.children.len();
    let at = Seq::new(n, |i: int| (child_x(k, x, i), child_y(k, y, i)));
    lemma_placed_in(f, k, x, y, n);
    assert(Seq::new(n, |i: int| measure::placed(f, k.children[i], at[i].0, at[i].1))
        =~= Seq::new(
        n,
        |i: int| measure::placed(f, k.children[i], child_x(k, x, i), child_y(k, y, i)),
    ));
    assert forall|i: int| 0 <= i < at.len() - 1 implies (#[trigger] at[i + 1]).1 >= at[i].1
        + k.children[i].room.h && (k.offsets is None ==> at[i + 1].1 == at[i].1
        + k.children[i].room.h + k.gap) by {
        lemma_child(k, x, y, i);
        lemma_child(k, x, y, i + 1);
        lemma_lead(k, i, i + 1);
    }
    assert forall|i: int| 0 <= i < at.len() implies x <= (#[trigger] at[i]).0 && at[i].0
        + k.children[i].room.w <= x + k.room.w && at[i].1 + k.children[i].room.h <= y
        + k.room.h && (k.offsets is Some ==> at[i].1 == y + k.offsets->0[i]) && (k.align
        == "center"@ ==> at[i].0 + k.children[i].room.ax == x + k.room.ax) && (k.align == "end"@
        && k.align != "center"@ ==> at[i].0 + k.children[i].room.w == x + k.room.w) && (k.align
        != "end"@ && k.align != "center"@ ==> at[i].0 == x) by {
        lemma_child(k, x, y, i);
        lemma_child_across(k, x, i);
    }
    if n > 0 {
        lemma_child(k, x, y, 0);
    }
    assert(in_a_column(k, x as int, y as int, at));
}

// ---------------------------------------------------------------- a whole tree
/// The areas of the leaves of a tree that begins at a point.
spec fn areas(f: Frame, k: MV, x: i64, y: i64) -> Seq<AreaV>
    decreases k, 0nat,
{
    if k.kind == Kind::Leaf {
        if flex::known(f, k) {
            seq![area_at(k, x as int, y as int)]
        } else {
            Seq::empty()
        }
    } else {
        areas_in(f, k, k.children, x, y, k.children.len())
    }
}

spec fn areas_in(f: Frame, k: MV, v: Seq<MV>, x: i64, y: i64, n: nat) -> Seq<AreaV>
    decreases v, n,
{
    if n == 0 || n > v.len() {
        Seq::empty()
    } else {
        let c = v[n - 1];
        areas_in(f, k, v, x, y, (n - 1) as nat) + (if is_row(k) {
            areas(f, c, measure::child_at(k, x, n - 1), measure::child_across(k, y, c))
        } else {
            areas(f, c, measure::child_across(k, x, c), measure::child_at(k, y, n - 1))
        })
    }
}

/// Where child `i` of a container lies.
spec fn child_area(k: MV, x: i64, y: i64, i: int) -> AreaV {
    area_at(k.children[i], child_x(k, x, i) as int, child_y(k, y, i) as int)
}

/// Whether each of some areas lies in that of one of the first `n` children.
spec fn in_children(k: MV, x: i64, y: i64, n: int, v: Seq<AreaV>) -> bool {
    forall|i: int| 0 <= i < v.len() ==> in_child(k, x, y, n, #[trigger] v[i])
}

spec fn in_child(k: MV, x: i64, y: i64, n: int, a: AreaV) -> bool {
    exists|j: int| 0 <= j < n && within(a, #[trigger] child_area(k, x, y, j))
}

/// What lies in areas that are apart is apart.
proof fn lemma_apart_within(a: AreaV, b: AreaV, c: AreaV, d: AreaV)
    requires
        within(a, c),
        within(b, d),
        apart(c, d),
    ensures
        apart(a, b),
{
}

proof fn lemma_tree(f: Frame, k: MV, x: i64, y: i64)
    requires
        roomy(k),
        in_reach(k, x as int, y as int),
    ensures
        spreads(
            f,
            leaves(f, k),
            areas(f, k, x, y),
            measure::placed(f, k, x, y),
            area_at(k, x as int, y as int),
        ),
    decreases k, 0nat,
{
    if k.kind == Kind::Leaf {
        if flex::known(f, k) {
            lemma_anchor(x, k.room.ax, k.room.aax);
            lemma_anchor(y, k.room.ay, k.room.aay);
            let a = area_at(k, x as int, y as int);
            assert(areas(f, k, x, y)[0] == a);
            assert(stands_in(f, k, a, measure::placed(f, k, x, y)[0]));
        }
    } else {
        lemma_trees(f, k, k.children, x, y, k.children.len());
    }
}

#[verifier::spinoff_prover]
#[verifier::rlimit(40)]
proof fn lemma_trees(f: Frame, k: MV, v: Seq<MV>, x: i64, y: i64, n: nat)
    requires
        roomy(k),
        k.kind != Kind::Leaf,
        v == k.children,
        in_reach(k, x as int, y as int),
        n <= v.len(),
    ensures
        spreads(
            f,
            leaves_in(f, v, n),
            areas_in(f, k, v, x, y, n),
            measure::placed_in(f, k, v, x, y, n),
            area_at(k, x as int, y as int),
        ),
        in_children(k, x, y, n as int, areas_in(f, k, v, x, y, n)),
    decreases v, n,
{
    if n > 0 {
        let m = (n - 1) as nat;
        lemma_trees(f, k, v, x, y, m);
        lemma_child(k, x, y, m as int);
        let c = v[m as int];
        let (cx, cy) = (child_x(k, x, m as int), child_y(k, y, m as int));
        lemma_tree(f, c, cx, cy);
        let all = area_at(k, x as int, y as int);
        let (ka, aa, pa) = (
            leaves_in(f, v, m),
            areas_in(f, k, v, x, y, m),
            measure::placed_in(f, k, v, x, y, m),
        );
        let (kb, ab, pb) = (leaves(f, c), areas(f, c, cx, cy), measure::placed(f, c, cx, cy));
        assert(leaves_in(f, v, n) == ka + kb);
        assert(areas_in(f, k, v, x, y, n) == aa + ab);
        assert(measure::placed_in(f, k, v, x, y, n) == pa + pb);
        assert forall|i: int, j: int| 0 <= i < aa.len() && 0 <= j < ab.len() implies apart(
            #[trigger] aa[i],
            #[trigger] ab[j],
        ) by {
            assert(in_child(k, x, y, m as int, aa[i]));
            let q = choose|q: int|
                0 <= q < m && within(aa[i], #[trigger] child_area(k, x, y, q));
            lemma_children_apart(k, x, y, q, m as int);
            lemma_apart_within(aa[i], ab[j], child_area(k, x, y, q), child_area(k, x, y, m as int));
        }
        lemma_more(
            f,
            (ka, aa, pa),
            (kb, ab, pb),
            all,
            child_area(k, x, y, m as int),
        );
        assert forall|i: int| 0 <= i < (aa + ab).len() implies in_child(
            k,
            x,
            y,
            n as int,
            #[trigger] (aa + ab)[i],
        ) by {
            if i < aa.len() {
                assert((aa + ab)[i] == aa[i]);
                assert(in_child(k, x, y, m as int, aa[i]));
                let q = choose|q: int|
                    0 <= q < m && within(aa[i], #[trigger] child_area(k, x, y, q));
                assert(within((aa + ab)[i], child_area(k, x, y, q)));
            } else {
                assert((aa + ab)[i] == ab[i - aa.len()]);
                assert(within((aa + ab)[i], child_area(k, x, y, m as int)));
            }
        }
    }
}

/// Two spreads that keep apart are one.
proof fn lemma_more(
    f: Frame,
    a: (Seq<MV>, Seq<AreaV>, Seq<PlaceV>),
    b: (Seq<MV>, Seq<AreaV>, Seq<PlaceV>),
    all: AreaV,
    part: AreaV,
)
    requires
        spreads(f, a.0, a.1, a.2, all),
        spreads(f, b.0, b.1, b.2, part),
        within(part, all),
        forall|i: int, j: int|
            0 <= i < a.1.len() && 0 <= j < b.1.len() ==> apart(
                #[trigger] a.1[i],
                #[trigger] b.1[j],
            ),
    ensures
        spreads(f, a.0 + b.0, a.1 + b.1, a.2 + b.2, all),
{
    let (ks, vs, ps) = (a.0 + b.0, a.1 + b.1, a.2 + b.2);
    let n = a.0.len() as int;
    assert forall|i: int| 0 <= i < ks.len() implies within(#[trigger] vs[i], all) by {
        if i < n {
            assert(vs[i] == a.1[i]);
        } else {
            assert(vs[i] == b.1[i - n]);
        }
    }
    assert forall|i: int| 0 <= i < ks.len() implies #[trigger] stands_in(f, ks[i], vs[i], ps[i]) by {
        if i < n {
            assert(stands_in(f, a.0[i], a.1[i], a.2[i]));
        } else {
            assert(stands_in(f, b.0[i - n], b.1[i - n], b.2[i - n]));
        }
    }
    assert forall|i: int, j: int| 0 <= i < j < ks.len() implies apart(
        #[trigger] vs[i],
        #[trigger] vs[j],
    ) by {
        if j < n {
            assert(vs[i] == a.1[i] && vs[j] == a.1[j]);
        } else if i >= n {
            assert(vs[i] == b.1[i - n] && vs[j] == b.1[j - n]);
        } else {
            assert(vs[i] == a.1[i] && vs[j] == b.1[j - n]);
        }
    }
}

/// The parts of a tree stand in areas of the sizes of their leaves, none of which overlaps another
/// or leaves the room of the tree.
pub proof fn parts_of_a_tree_keep_apart(f: Frame, k: MV, x: i64, y: i64)
    requires
        roomy(k),
        in_reach(k, x as int, y as int),
    ensures
        exists|v: Seq<AreaV>|
            spreads(
                f,
                leaves(f, k),
                v,
                measure::placed(f, k, x, y),
                area_at(k, x as int, y as int),
            ),
{
    lemma_tree(f, k, x, y);
}

// ---------------------------------------------------------------- containers
/// The sizes of the first `n` children along a row or a column, with a gap between any two.
pub open spec fn total(kids: Seq<MV>, gap: int, row: bool, n: int) -> int
    decreases n,
{
    if n <= 0 {
        0
    } else {
        total(kids, gap, row, n - 1) + (if n > 1 {
            gap
        } else {
            0
        }) + size_along(kids[n - 1], row)
    }
}

proof fn lemma_total(kids: Seq<MV>, gap: i64, row: bool, n: int)
    requires
        0 <= n <= kids.len(),
        gap >= 0,
        forall|i: int| 0 <= i < kids.len() ==> size_along(#[trigger] kids[i], row) >= 0,
        total(kids, gap as int, row, kids.len() as int) <= LIMIT,
    ensures
        0 <= total(kids, gap as int, row, n) <= total(kids, gap as int, row, kids.len() as int),
        measure::line_len(kids, gap, row, n) == total(kids, gap as int, row, n),
    decreases n,
{
    lemma_total_rises(kids, gap as int, row, n);
    if n > 0 {
        lemma_total(kids, gap, row, n - 1);
        lemma_total_rises(kids, gap as int, row, n - 1);
    }
}

proof fn lemma_total_rises(kids: Seq<MV>, gap: int, row: bool, n: int)
    requires
        0 <= n <= kids.len(),
        gap >= 0,
        forall|i: int| 0 <= i < kids.len() ==> size_along(#[trigger] kids[i], row) >= 0,
    ensures
        0 <= total(kids, gap, row, n) <= total(kids, gap, row, kids.len() as int),
    decreases kids.len() - n,
{
    lemma_total_low(kids, gap, row, n);
    if n < kids.len() {
        lemma_total_rises(kids, gap, row, n + 1);
        assert(size_along(kids[n], row) >= 0);
    }
}

proof fn lemma_total_low(kids: Seq<MV>, gap: int, row: bool, n: int)
    requires
        0 <= n <= kids.len(),
        gap >= 0,
        forall|i: int| 0 <= i < kids.len() ==> size_along(#[trigger] kids[i], row) >= 0,
    ensures
        0 <= total(kids, gap, row, n),
    decreases n,
{
    if n > 0 {
        lemma_total_low(kids, gap, row, n - 1);
        assert(size_along(kids[n - 1], row) >= 0);
    }
}

proof fn lemma_widest(kids: Seq<MV>, row: bool, part: int, n: int, i: int)
    requires
        0 <= i < n <= kids.len(),
        forall|j: int| 0 <= j < kids.len() ==> orient::fits(measure::across(#[trigger] kids[j], row, part)),
    ensures
        measure::across(kids[i], row, part) <= measure::widest(kids, row, part, n),
        exists|j: int| 0 <= j < n && measure::widest(kids, row, part, n) == measure::across(#[trigger] kids[j], row, part),
    decreases n,
{
    assert(orient::fits(measure::across(kids[n - 1], row, part)));
    if n > 1 {
        if i < n - 1 {
            lemma_widest(kids, row, part, n - 1, i);
        } else {
            lemma_widest(kids, row, part, n - 1, 0);
        }
        let j = choose|j: int|
            0 <= j < n - 1 && measure::widest(kids, row, part, n - 1) == measure::across(#[trigger] kids[j], row, part);
        if measure::widest(kids, row, part, n) == measure::widest(kids, row, part, n - 1) {
            assert(measure::widest(kids, row, part, n) == measure::across(kids[j], row, part));
        } else {
            assert(measure::widest(kids, row, part, n) == measure::across(kids[n - 1], row, part));
        }
    } else {
        assert(measure::widest(kids, row, part, n) == measure::across(kids[0], row, part));
    }
}

/// Whether the sizes of a node and what lies before and behind its lines are lengths that can be
/// told, and are at most half of the largest.
pub open spec fn moderate(k: MV) -> bool {
    let m = LIMIT / 2;
    &&& -m <= k.room.w <= m
    &&& -m <= k.room.h <= m
    &&& -m <= k.room.ax <= m
    &&& -m <= k.room.ay <= m
    &&& -m <= k.room.w - k.room.ax <= m
    &&& -m <= k.room.h - k.room.ay <= m
}

/// A row or a column is measured so that its children just fit: along it their sizes and the gaps
/// between them, across it the largest of them.
#[verifier::spinoff_prover]
#[verifier::rlimit(40)]
pub proof fn a_container_is_as_large_as_its_children(
    f: Frame,
    kids: Seq<MV>,
    row: bool,
    s: StyleV,
)
    requires
        forall|i: int| 0 <= i < kids.len() ==> roomy(#[trigger] kids[i]) && moderate(kids[i]),
        0 <= s.gap <= LIMIT,
        ({
            let k = measure::container(f, kids, row, s);
            total(kids, k.gap as int, row, kids.len() as int) <= LIMIT
        }),
    ensures
        ({
            let k = measure::container(f, kids, row, s);
            &&& is_row(k) == row
            &&& k.kind != Kind::Leaf
            &&& k.children == kids
            &&& k.align == s.align
            &&& k.gap >= s.gap
            &&& size_along(k, row) == total(kids, k.gap as int, row, kids.len() as int)
            &&& roomy(k)
            &&& s.align != "center"@ && kids.len() > 0 ==> exists|i: int|
                0 <= i < kids.len() && size_across(k, row) == size_across(#[trigger] kids[i], row)
        }),
{
    reveal(measure::container);
    let k = measure::container(f, kids, row, s);
    let n = kids.len() as int;
    assert forall|i: int| 0 <= i < kids.len() implies size_along(#[trigger] kids[i], row) >= 0 by {
        assert(roomy(kids[i]));
    }
    assert(k.gap >= s.gap);
    lemma_total(kids, k.gap, row, n);
    assert(size_along(k, row) == total(kids, k.gap as int, row, n));
    assert forall|i: int| 0 <= i < n implies #[trigger] lead(k, i) == total(
        kids,
        k.gap as int,
        row,
        i,
    ) + (if i > 0 {
        k.gap as int
    } else {
        0
    }) by {
        lemma_lead_total(k, row, i);
    }
    assert forall|j: int, p: int| 0 <= j < kids.len() && 0 <= p <= 2 implies orient::fits(
        #[trigger] measure::across(kids[j], row, p),
    ) by {
        assert(roomy(kids[j]) && moderate(kids[j]));
    }
    assert forall|i: int| 0 <= i < n implies fits_across(k, #[trigger] k.children[i]) by {
        lemma_widest(kids, row, 0, n, i);
        lemma_widest(kids, row, 1, n, i);
        lemma_widest(kids, row, 2, n, i);
        let a = choose|j: int|
            0 <= j < n && measure::widest(kids, row, 0, n) == measure::across(#[trigger] kids[j], row, 0);
        let b = choose|j: int|
            0 <= j < n && measure::widest(kids, row, 1, n) == measure::across(#[trigger] kids[j], row, 1);
        assert(moderate(kids[a]) && moderate(kids[b]) && moderate(kids[i]));
    }
    assert(has_room(k)) by {
        if n > 0 {
            assert(lead(k, n - 1) + size_along(kids[n - 1], row) == total(
                kids,
                k.gap as int,
                row,
                n,
            ));
        }
        assert forall|i: int| 0 < i < n implies #[trigger] lead(k, i) >= lead(k, i - 1)
            + size_along(k.children[i - 1], row) by {
            assert(lead(k, i) == lead(k, i - 1) + size_along(k.children[i - 1], row) + k.gap);
        }
    }
    assert(size_across(k, row) >= 0) by {
        if n > 0 {
            assert(fits_across(k, k.children[0]));
            assert(roomy(kids[0]));
        }
    }
    if s.align != "center"@ && n > 0 {
        lemma_widest(kids, row, 2, n, 0);
        let c = choose|j: int|
            0 <= j < n && measure::widest(kids, row, 2, n) == measure::across(#[trigger] kids[j], row, 2);
        assert(size_across(k, row) == size_across(kids[c], row));
    }
}

proof fn lemma_lead_total(k: MV, row: bool, i: int)
    requires
        is_row(k) == row,
        k.offsets is None,
        0 <= i < k.children.len(),
    ensures
        lead(k, i) == total(k.children, k.gap as int, row, i) + (if i > 0 {
            k.gap as int
        } else {
            0
        }),
    decreases i,
{
    if i > 0 {
        lemma_lead_total(k, row, i - 1);
    }
}

// ---------------------------------------------------------------- columns on the lines of pins
/// Children of a column that stand on the lines of pins keep their order: each begins at the least
/// a gap behind where the one before it ends, as far as lengths can tell.
pub proof fn children_on_lines_keep_apart(
    f: Frame,
    m: Seq<(Seq<char>, i64)>,
    kids: Seq<MV>,
    gap: i64,
    n: int,
)
    requires
        0 <= n <= kids.len(),
    ensures
        ({
            let r = flex::run_down(f, m, kids, gap, n);
            &&& r.offs.len() == n
            &&& n > 0 ==> r.offs[0] >= 0
            &&& n > 0 ==> r.at == orient::cut(r.offs[n - 1] + kids[n - 1].room.h + gap)
            &&& forall|i: int|
                0 < i < n && orient::fits(r.offs[i - 1] + kids[i - 1].room.h + gap)
                    ==> #[trigger] r.offs[i] >= r.offs[i - 1] + kids[i - 1].room.h + gap
        }),
    decreases n,
{
    if n > 0 {
        children_on_lines_keep_apart(f, m, kids, gap, n - 1);
        let b = flex::run_down(f, m, kids, gap, n - 1);
        let r = flex::run_down(f, m, kids, gap, n);
        assert(r.offs[n - 1] >= b.at);
        assert forall|i: int|
            0 < i < n && orient::fits(
                r.offs[i - 1] + kids[i - 1].room.h + gap,
            ) implies #[trigger] r.offs[i] >= r.offs[i - 1] + kids[i - 1].room.h + gap by {
            if i < n - 1 {
                assert(r.offs[i] == b.offs[i]);
                assert(r.offs[i - 1] == b.offs[i - 1]);
            } else {
                assert(r.offs[i - 1] == b.offs[i - 1]);
            }
        }
    }
}

} // verus!
