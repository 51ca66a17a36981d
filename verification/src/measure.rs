//! Sizes of the nodes of a layout tree, and where its parts go.
use crate::flex;
use crate::flex::{cut_wide, face_neighbours, known_part, line_up, Kind, MNode, MV};
use crate::geo;
use crate::geo::snap_even;
use crate::geom;
use crate::geom::{floor_div, max_i, Pt, GRID};
use crate::group::Frame;
use crate::model_json;
use crate::model_json::divide_even;
use crate::orient;
use crate::orient::{align_line, cut_off, orient_leaf, Room};
use crate::symlib;
use crate::text;
use crate::text::{same, Line};
use crate::tree;
use crate::tree::{Style, StyleV, Tree, TreeV};
use vstd::prelude::*;

verus! {

/// The gap of stacked rows and columns.
pub const STACK_GAP: i64 = 1_270_000;

/// The least width of wrapped rows beside a tall part.
pub const LEAST_SIDE: i64 = 8_890_000;

/// How deep rows are wrapped inside wrapped rows.
pub const WRAPS: u64 = 0x1_0000_0000;

// ---------------------------------------------------------------- wrapping
/// Whether a node holds a part with many pins.
pub open spec fn tall(f: Frame, k: MV) -> bool
    decreases k, 0nat,
{
    if k.kind == Kind::Leaf {
        flex::known(f, k) && flex::part_of(f, k).pins@.len() > 8 && !flex::part_of(
            f,
            k,
        ).is_connector
    } else {
        any_tall(f, k.children, k.children.len())
    }
}

pub open spec fn any_tall(f: Frame, v: Seq<MV>, n: nat) -> bool
    decreases v, n,
{
    if n == 0 || n > v.len() {
        false
    } else {
        any_tall(f, v, (n - 1) as nat) || tall(f, v[n - 1])
    }
}

fn is_tall(f: &Frame, k: &MNode) -> (r: bool)
    requires
        f.wf(),
    ensures
        r == tall(*f, k@),
    decreases k,
{
    if k.kind == Kind::Leaf {
        return match known_part(f, k) {
            Some(p) => p.pins.len() > 8 && !p.is_connector,
            None => false,
        };
    }
    proof {
        flex::lemma_node_view(*k);
    }
    let ghost kv = k@.children;
    let mut r = false;
    let mut i: usize = 0;
    while i < k.children.len()
        invariant
            i <= k.children@.len(),
            f.wf(),
            kv == flex::nodes_v(k.children@),
            r == any_tall(*f, kv, i as nat),
        decreases k.children@.len() - i,
    {
        assert(decreases_to!(k => k.children));
        assert(decreases_to!(k.children => k.children@[i as int]));
        assert(kv[i as int] == k.children@[i as int]@);
        let t = is_tall(f, &k.children[i]);
        r = r || t;
        i += 1;
    }
    r
}

/// The positions below `n` of nodes that are tall, or that are not.
pub open spec fn picked(f: Frame, kids: Seq<MV>, want: bool, n: int) -> Seq<usize>
    decreases n,
{
    if n <= 0 {
        Seq::empty()
    } else {
        let rest = picked(f, kids, want, n - 1);
        if tall(f, kids[n - 1]) == want {
            rest.push((n - 1) as usize)
        } else {
            rest
        }
    }
}

pub open spec fn below(v: Seq<usize>, n: int) -> bool {
    forall|i: int| 0 <= i < v.len() ==> #[trigger] v[i] < n
}

fn pick(f: &Frame, kids: &Vec<MNode>, want: bool) -> (r: Vec<usize>)
    requires
        f.wf(),
    ensures
        r@ == picked(*f, flex::nodes_v(kids@), want, kids@.len() as int),
        below(r@, kids@.len() as int),
{
    let ghost ks = flex::nodes_v(kids@);
    let mut r: Vec<usize> = Vec::new();
    let mut i: usize = 0;
    assert(r@ =~= picked(*f, ks, want, 0));
    while i < kids.len()
        invariant
            i <= kids@.len(),
            f.wf(),
            ks == flex::nodes_v(kids@),
            r@ == picked(*f, ks, want, i as int),
            below(r@, i as int),
        decreases kids@.len() - i,
    {
        assert(ks[i as int] == kids@[i as int]@);
        if is_tall(f, &kids[i]) == want {
            r.push(i);
        }
        i += 1;
    }
    r
}

/// Rows filled so far, and the one being filled with its width.
#[verifier::ext_equal]
pub struct PackV {
    pub rows: Seq<Seq<usize>>,
    pub cur: Seq<usize>,
    pub w: i64,
}

/// The first `n` nodes filled into rows, a new one begun where the limit would be passed.
pub open spec fn packing(kids: Seq<MV>, idx: Seq<usize>, gap: i64, limit: i64, n: int) -> PackV
    decreases n,
{
    if n <= 0 {
        PackV { rows: Seq::empty(), cur: Seq::empty(), w: 0 }
    } else {
        let b = packing(kids, idx, gap, limit, n - 1);
        let w = kids[idx[n - 1] as int].room.w;
        if b.cur.len() > 0 && b.w + gap + w > limit {
            PackV { rows: b.rows.push(b.cur), cur: seq![idx[n - 1]], w: orient::cut(w as int) }
        } else {
            PackV {
                cur: b.cur.push(idx[n - 1]),
                w: orient::cut(
                    b.w + (if b.cur.len() > 0 {
                        gap as int
                    } else {
                        0
                    }) + w,
                ),
                ..b
            }
        }
    }
}

pub open spec fn packed(kids: Seq<MV>, idx: Seq<usize>, gap: i64, limit: i64) -> Seq<Seq<usize>> {
    let p = packing(kids, idx, gap, limit, idx.len() as int);
    p.rows.push(p.cur)
}

pub open spec fn rows_v(v: Seq<Vec<usize>>) -> Seq<Seq<usize>> {
    Seq::new(v.len(), |i: int| v[i]@)
}

pub open spec fn all_below(v: Seq<Seq<usize>>, n: int) -> bool {
    forall|i: int| 0 <= i < v.len() ==> below(#[trigger] v[i], n)
}

fn pack(kids: &Vec<MNode>, idx: &Vec<usize>, gap: i64, limit: i64) -> (r: Vec<Vec<usize>>)
    requires
        below(idx@, kids@.len() as int),
    ensures
        rows_v(r@) == packed(flex::nodes_v(kids@), idx@, gap, limit),
        r@.len() == packed(flex::nodes_v(kids@), idx@, gap, limit).len(),
        all_below(rows_v(r@), kids@.len() as int),
{
    let ghost ks = flex::nodes_v(kids@);
    let mut rows: Vec<Vec<usize>> = Vec::new();
    let mut cur: Vec<usize> = Vec::new();
    let mut w: i64 = 0;
    let mut i: usize = 0;
    assert(rows_v(rows@) =~= Seq::empty());
    while i < idx.len()
        invariant
            i <= idx@.len(),
            below(idx@, kids@.len() as int),
            below(cur@, kids@.len() as int),
            all_below(rows_v(rows@), kids@.len() as int),
            ks == flex::nodes_v(kids@),
            (PackV { rows: rows_v(rows@), cur: cur@, w }) =~= packing(
                ks,
                idx@,
                gap,
                limit,
                i as int,
            ),
        decreases idx@.len() - i,
    {
        let ghost b = packing(ks, idx@, gap, limit, i as int);
        let j = idx[i];
        assert(ks[j as int] == kids@[j as int]@);
        let kw = kids[j].room.w;
        if cur.len() > 0 && w as i128 + gap as i128 + kw as i128 > limit as i128 {
            let mut next: Vec<usize> = Vec::new();
            next.push(j);
            rows.push(cur);
            assert(rows_v(rows@) =~= b.rows.push(b.cur));
            cur = next;
            assert(cur@ =~= seq![j]);
            w = cut_wide(kw as i128);
        } else {
            let g: i64 = if cur.len() > 0 { gap } else { 0 };
            cur.push(j);
            w = cut_wide(w as i128 + g as i128 + kw as i128);
        }
        i += 1;
    }
    let ghost b = packing(ks, idx@, gap, limit, idx@.len() as int);
    rows.push(cur);
    assert(rows_v(rows@) =~= b.rows.push(b.cur));
    assert(rows_v(rows@).len() == rows@.len());
    rows
}

pub open spec fn picks(raws: Seq<TreeV>, idx: Seq<usize>) -> Seq<TreeV> {
    Seq::new(idx.len(), |i: int| raws[idx[i] as int])
}

/// A row that is not wrapped again.
pub open spec fn whole_row(v: Seq<TreeV>, gap: int, align: Seq<char>) -> TreeV {
    let r = TreeV::row_of(v, gap, align);
    TreeV { style: StyleV { wrapped: true, ..r.style }, ..r }
}

pub open spec fn row_trees(
    raws: Seq<TreeV>,
    rows: Seq<Seq<usize>>,
    gap: int,
    align: Seq<char>,
) -> Seq<TreeV> {
    Seq::new(rows.len(), |i: int| whole_row(picks(raws, rows[i]), gap, align))
}

fn pick_trees(raws: &Vec<Tree>, idx: &Vec<usize>) -> (r: Vec<Tree>)
    requires
        below(idx@, raws@.len() as int),
    ensures
        tree::trees_v(r@) == picks(tree::trees_v(raws@), idx@),
{
    let ghost want = picks(tree::trees_v(raws@), idx@);
    let mut r: Vec<Tree> = Vec::new();
    let mut i: usize = 0;
    while i < idx.len()
        invariant
            i <= idx@.len(),
            below(idx@, raws@.len() as int),
            want == picks(tree::trees_v(raws@), idx@),
            r@.len() == i,
            forall|j: int| 0 <= j < i ==> (#[trigger] r@[j])@ == want[j],
        decreases idx@.len() - i,
    {
        let t = raws[idx[i]].dup();
        assert(t@ == want[i as int]);
        r.push(t);
        i += 1;
    }
    assert(tree::trees_v(r@) =~= want);
    r
}

fn make_whole_row(v: Vec<Tree>, gap: i64, align: &str) -> (r: Tree)
    ensures
        r@ == whole_row(tree::trees_v(v@), gap as int, align@),
{
    let ghost vv = tree::trees_v(v@);
    let mut r = Tree::row_of(v, gap, align);
    proof {
        tree::lemma_tree_view(r);
    }
    r.style.wrapped = true;
    proof {
        tree::lemma_tree_view(r);
    }
    assert(r@ =~= whole_row(vv, gap as int, align@));
    r
}

fn make_rows(raws: &Vec<Tree>, rows: &Vec<Vec<usize>>, gap: i64, align: &str) -> (r: Vec<Tree>)
    requires
        all_below(rows_v(rows@), raws@.len() as int),
    ensures
        tree::trees_v(r@) == row_trees(tree::trees_v(raws@), rows_v(rows@), gap as int, align@),
{
    let ghost want = row_trees(tree::trees_v(raws@), rows_v(rows@), gap as int, align@);
    let mut r: Vec<Tree> = Vec::new();
    let mut i: usize = 0;
    while i < rows.len()
        invariant
            i <= rows@.len(),
            all_below(rows_v(rows@), raws@.len() as int),
            want == row_trees(tree::trees_v(raws@), rows_v(rows@), gap as int, align@),
            r@.len() == i,
            forall|j: int| 0 <= j < i ==> (#[trigger] r@[j])@ == want[j],
        decreases rows@.len() - i,
    {
        assert(rows_v(rows@)[i as int] == rows@[i as int]@);
        let v = pick_trees(raws, &rows[i]);
        let t = make_whole_row(v, gap, align);
        assert(t@ == want[i as int]);
        r.push(t);
        i += 1;
    }
    assert(tree::trees_v(r@) =~= want);
    r
}

/// The room beside the first `n` tall nodes of a row.
pub open spec fn room_left(kids: Seq<MV>, idx: Seq<usize>, gap: i64, maxw: i64, n: int) -> i64
    decreases n,
{
    if n <= 0 {
        maxw
    } else {
        orient::cut(
            room_left(kids, idx, gap, maxw, n - 1) - kids[idx[n - 1] as int].room.w - gap,
        )
    }
}

pub struct WrapV {
    pub t: TreeV,
    pub note: Seq<char>,
}

/// A length in whole grid steps, for messages.
pub open spec fn steps_text(v: int) -> Seq<char> {
    text::numeral(model_json::even_quotient(v, GRID as int))
}

/// The tree that stands for a row that is too wide: small nodes in rows beside the tall ones, or
/// all nodes in rows under each other; `None` where one row holds them.
pub open spec fn wrapped_row(
    f: Frame,
    kids: Seq<MV>,
    raws: Seq<TreeV>,
    s: StyleV,
    gap: i64,
    maxw: i64,
    path: Seq<char>,
) -> Option<WrapV> {
    let n = kids.len() as int;
    let big = picked(f, kids, true, n);
    let small = picked(f, kids, false, n);
    if big.len() > 0 && small.len() > 0 {
        let avail = room_left(kids, big, gap, maxw, big.len() as int);
        let rows = packed(kids, small, gap, geom::hi(avail as int, LEAST_SIDE as int) as i64);
        let side = TreeV::col_of(
            row_trees(raws, rows, gap as int, s.align),
            STACK_GAP as int,
            "start"@,
        );
        Some(
            WrapV {
                t: whole_row(picks(raws, big).push(side), gap as int, "start"@),
                note: "note: "@ + path + " row was wider than "@ + steps_text(maxw as int)
                    + " units; small items were wrapped into "@ + text::digits(rows.len())
                    + " rows beside the tall part"@,
            },
        )
    } else {
        let rows = packed(kids, Seq::new(kids.len(), |i: int| i as usize), gap, maxw);
        if rows.len() > 1 {
            Some(
                WrapV {
                    t: TreeV::col_of(
                        row_trees(raws, rows, gap as int, s.align),
                        STACK_GAP as int,
                        "start"@,
                    ),
                    note: "note: "@ + path + " row was wider than "@ + steps_text(maxw as int)
                        + " units and was wrapped into "@ + text::digits(rows.len()) + " rows"@,
                },
            )
        } else {
            None
        }
    }
}

pub(crate) fn steps_line(v: i64) -> (r: String)
    ensures
        r@ == steps_text(v as int),
{
    let q = divide_even(v as i128, GRID as i128);
    assert(-0x1_0000_0000_0000 <= q <= 0x1_0000_0000_0000) by {
        assert(q == model_json::even_quotient(v as int, GRID as int));
        lemma_steps_small(v as int);
    }
    text::decimal(q as i64)
}

proof fn lemma_steps_small(v: int)
    requires
        -0x8000_0000_0000_0000 <= v <= 0x8000_0000_0000_0000,
    ensures
        -0x1_0000_0000_0000 <= model_json::even_quotient(v, GRID as int) <= 0x1_0000_0000_0000,
{
}

/// Wraps a row that is too wide.
pub fn wrap_row(
    f: &Frame,
    kids: &Vec<MNode>,
    raws: &Vec<Tree>,
    s: &Style,
    gap: i64,
    maxw: i64,
    path: &str,
) -> (r: Option<(Tree, String)>)
    requires
        f.wf(),
        raws@.len() == kids@.len(),
    ensures
        match r {
            Some(w) => wrapped_row(
                *f,
                flex::nodes_v(kids@),
                tree::trees_v(raws@),
                s@,
                gap,
                maxw,
                path@,
            ) == Some((WrapV { t: w.0@, note: w.1@ })),
            None => wrapped_row(
                *f,
                flex::nodes_v(kids@),
                tree::trees_v(raws@),
                s@,
                gap,
                maxw,
                path@,
            ) is None,
        },
{
    let ghost ks = flex::nodes_v(kids@);
    let ghost rs = tree::trees_v(raws@);
    let big = pick(f, kids, true);
    let small = pick(f, kids, false);
    if big.len() > 0 && small.len() > 0 {
        let mut avail = maxw;
        let mut i: usize = 0;
        while i < big.len()
            invariant
                i <= big@.len(),
                below(big@, kids@.len() as int),
                ks == flex::nodes_v(kids@),
                avail == room_left(ks, big@, gap, maxw, i as int),
            decreases big@.len() - i,
        {
            assert(ks[big@[i as int] as int] == kids@[big@[i as int] as int]@);
            avail = cut_wide(avail as i128 - kids[big[i]].room.w as i128 - gap as i128);
            i += 1;
        }
        let rows = pack(kids, &small, gap, max_i(avail, LEAST_SIDE));
        let trees = make_rows(raws, &rows, gap, s.align.as_str());
        let side = Tree::col_of(trees, STACK_GAP, "start");
        let mut items = pick_trees(raws, &big);
        let ghost i0 = tree::trees_v(items@);
        let ghost sv = side@;
        items.push(side);
        assert(tree::trees_v(items@) =~= i0.push(sv));
        let t = make_whole_row(items, gap, "start");
        let steps = steps_line(maxw);
        let note = Line::of("note: ").add(path).add(" row was wider than ").add(
            steps.as_str(),
        ).add(" units; small items were wrapped into ").count(rows.len() as u128).add(
            " rows beside the tall part",
        ).done();
        return Some((t, note));
    }
    let mut all: Vec<usize> = Vec::new();
    let mut i: usize = 0;
    while i < kids.len()
        invariant
            i <= kids@.len(),
            all@ =~= Seq::new(i as nat, |i: int| i as usize),
            below(all@, i as int),
        decreases kids@.len() - i,
    {
        all.push(i);
        i += 1;
    }
    let rows = pack(kids, &all, gap, maxw);
    if rows.len() > 1 {
        let trees = make_rows(raws, &rows, gap, s.align.as_str());
        let t = Tree::col_of(trees, STACK_GAP, "start");
        let steps = steps_line(maxw);
        let note = Line::of("note: ").add(path).add(" row was wider than ").add(
            steps.as_str(),
        ).add(" units and was wrapped into ").count(rows.len() as u128).add(" rows").done();
        return Some((t, note));
    }
    None
}

// ---------------------------------------------------------------- containers
/// The length of the first `n` nodes in a line with gaps between them, along a row or down a
/// column.
pub open spec fn line_len(kids: Seq<MV>, gap: i64, row: bool, n: int) -> i64
    decreases n,
{
    if n <= 0 {
        0
    } else {
        let k = kids[n - 1];
        orient::cut(
            line_len(kids, gap, row, n - 1) + (if n > 1 {
                gap as int
            } else {
                0
            }) + (if row {
                k.room.w
            } else {
                k.room.h
            }),
        )
    }
}

/// What of a node lies before its alignment line, behind it, or on both sides, across the line.
pub open spec fn across(k: MV, row: bool, part: int) -> int {
    let (size, line) = if row {
        (k.room.h as int, k.room.ay as int)
    } else {
        (k.room.w as int, k.room.ax as int)
    };
    if part == 0 {
        line
    } else if part == 1 {
        size - line
    } else {
        size
    }
}

/// The largest such length of the first `n` nodes, none giving 0.
pub open spec fn widest(kids: Seq<MV>, row: bool, part: int, n: int) -> i64
    decreases n,
{
    if n <= 0 {
        0
    } else {
        let v = orient::cut(across(kids[n - 1], row, part));
        if n == 1 || v > widest(kids, row, part, n - 1) {
            v
        } else {
            widest(kids, row, part, n - 1)
        }
    }
}

/// Whether a part with many pins is among the nodes.
pub open spec fn has_big(f: Frame, kids: Seq<MV>) -> bool {
    exists|i: int|
        0 <= i < kids.len() && (#[trigger] kids[i]).kind == Kind::Leaf && flex::known(f, kids[i])
            && flex::part_of(f, kids[i]).pins@.len() > 8
}

/// A measured row or column: as long as its children with the gaps, aligned on their lines or as
/// wide as the widest.
#[verifier::opaque]
pub open spec fn container(f: Frame, kids: Seq<MV>, row: bool, s: StyleV) -> MV {
    let n = kids.len() as int;
    let gap0 = orient::cut(s.gap);
    let gap = if has_big(f, kids) {
        geom::hi(gap0 as int, STACK_GAP as int) as i64
    } else {
        gap0
    };
    let len = line_len(kids, gap, row, n);
    let (wide, line) = if s.align == "center"@ {
        let a = widest(kids, row, 0, n);
        (orient::cut(a + widest(kids, row, 1, n)), a)
    } else {
        let h = widest(kids, row, 2, n);
        (h, (h as int / 2) as i64)
    };
    let room = if row {
        let ax = if n > 0 {
            kids[0].room.ax
        } else {
            (len as int / 2) as i64
        };
        Room { w: len, h: wide, ax, ay: line, aax: ax, aay: line }
    } else {
        let ay = if n > 0 {
            kids[0].room.ay
        } else {
            (len as int / 2) as i64
        };
        Room { w: wide, h: len, ax: line, ay, aax: line, aay: ay }
    };
    MV {
        kind: if row {
            Kind::Row
        } else {
            Kind::Col
        },
        room,
        part: None,
        rot: 0,
        mirror: ""@,
        children: kids,
        gap,
        align: s.align,
        offsets: None,
    }
}

fn find_len(kids: &Vec<MNode>, gap: i64, row: bool) -> (r: i64)
    ensures
        r == line_len(flex::nodes_v(kids@), gap, row, kids@.len() as int),
        orient::fits(r as int),
{
    let ghost ks = flex::nodes_v(kids@);
    let mut r: i64 = 0;
    let mut i: usize = 0;
    while i < kids.len()
        invariant
            i <= kids@.len(),
            ks == flex::nodes_v(kids@),
            r == line_len(ks, gap, row, i as int),
            orient::fits(r as int),
        decreases kids@.len() - i,
    {
        assert(ks[i as int] == kids@[i as int]@);
        let g: i64 = if i > 0 { gap } else { 0 };
        let w = if row { kids[i].room.w } else { kids[i].room.h };
        r = cut_wide(r as i128 + g as i128 + w as i128);
        i += 1;
    }
    r
}

fn find_widest(kids: &Vec<MNode>, row: bool, part: u8) -> (r: i64)
    ensures
        r == widest(flex::nodes_v(kids@), row, part as int, kids@.len() as int),
        orient::fits(r as int),
{
    let ghost ks = flex::nodes_v(kids@);
    let mut r: i64 = 0;
    let mut i: usize = 0;
    while i < kids.len()
        invariant
            i <= kids@.len(),
            ks == flex::nodes_v(kids@),
            r == widest(ks, row, part as int, i as int),
            orient::fits(r as int),
        decreases kids@.len() - i,
    {
        assert(ks[i as int] == kids@[i as int]@);
        let size = if row { kids[i].room.h } else { kids[i].room.w };
        let line = if row { kids[i].room.ay } else { kids[i].room.ax };
        let v = if part == 0 {
            cut_wide(line as i128)
        } else if part == 1 {
            cut_wide(size as i128 - line as i128)
        } else {
            cut_wide(size as i128)
        };
        if i == 0 || v > r {
            r = v;
        }
        i += 1;
    }
    r
}

fn holds_big(f: &Frame, kids: &Vec<MNode>) -> (r: bool)
    requires
        f.wf(),
    ensures
        r == has_big(*f, flex::nodes_v(kids@)),
{
    let ghost ks = flex::nodes_v(kids@);
    let mut i: usize = 0;
    while i < kids.len()
        invariant
            i <= kids@.len(),
            f.wf(),
            ks == flex::nodes_v(kids@),
            forall|j: int|
                0 <= j < i ==> !((#[trigger] ks[j]).kind == Kind::Leaf && flex::known(*f, ks[j])
                    && flex::part_of(*f, ks[j]).pins@.len() > 8),
        decreases kids@.len() - i,
    {
        assert(ks[i as int] == kids@[i as int]@);
        if kids[i].kind == Kind::Leaf {
            match known_part(f, &kids[i]) {
                Some(p) => {
                    if p.pins.len() > 8 {
                        return true;
                    }
                },
                None => {},
            }
        }
        i += 1;
    }
    false
}

fn make_container(f: &Frame, kids: Vec<MNode>, row: bool, s: &Style) -> (r: MNode)
    requires
        f.wf(),
    ensures
        r@ == container(*f, flex::nodes_v(kids@), row, s@),
{
    let ghost ks = flex::nodes_v(kids@);
    let gap0 = cut_off(s.gap);
    let gap = if holds_big(f, &kids) { max_i(gap0, STACK_GAP) } else { gap0 };
    let len = find_len(&kids, gap, row);
    let center = same(s.align.as_str(), "center");
    let (wide, line) = if center {
        let a = find_widest(&kids, row, 0);
        let b = find_widest(&kids, row, 1);
        (cut_wide(a as i128 + b as i128), a)
    } else {
        let h = find_widest(&kids, row, 2);
        (h, floor_div(h, 2))
    };
    if kids.len() > 0 {
        assert(ks[0] == kids@[0]@);
    }
    let room = if row {
        let ax = if kids.len() > 0 { kids[0].room.ax } else { floor_div(len, 2) };
        Room { w: len, h: wide, ax, ay: line, aax: ax, aay: line }
    } else {
        let ay = if kids.len() > 0 { kids[0].room.ay } else { floor_div(len, 2) };
        Room { w: wide, h: len, ax: line, ay, aax: line, aay: ay }
    };
    let r = MNode {
        kind: if row { Kind::Row } else { Kind::Col },
        room,
        part: None,
        rot: 0,
        mirror: "".to_owned(),
        children: kids,
        gap,
        align: s.align.clone(),
        offsets: None,
    };
    proof {
        flex::lemma_node_view(r);
        reveal(container);
    }
    assert(r@ =~= container(*f, ks, row, s@));
    r
}

// ---------------------------------------------------------------- measuring
/// The last position below `n` of a part with a key.
pub open spec fn keyed_part(f: Frame, key: Seq<char>, n: int) -> Option<usize>
    decreases n,
{
    if n <= 0 || n > f.parts@.len() {
        None
    } else if f.parts@[n - 1].key@ == key {
        Some((n - 1) as usize)
    } else {
        keyed_part(f, key, n - 1)
    }
}

pub(crate) fn find_keyed(f: &Frame, key: &str) -> (r: Option<usize>)
    ensures
        r == keyed_part(*f, key@, f.parts@.len() as int),
        r is Some ==> r->0 < f.parts@.len(),
{
    let mut n: usize = f.parts.len();
    while n > 0
        invariant
            n <= f.parts@.len(),
            keyed_part(*f, key@, f.parts@.len() as int) == keyed_part(*f, key@, n as int),
        decreases n,
    {
        if same(f.parts[n - 1].key.as_str(), key) {
            return Some(n - 1);
        }
        n -= 1;
    }
    None
}

/// A measured tree: the tree as it is left, its measures, and what there is to say.
#[verifier::ext_equal]
pub struct MeasuredV {
    pub t: TreeV,
    pub node: MV,
    pub notes: Seq<Seq<char>>,
}

#[verifier::ext_equal]
pub struct ListMeasuredV {
    pub ts: Seq<TreeV>,
    pub nodes: Seq<MV>,
    pub notes: Seq<Seq<char>>,
}

pub open spec fn unknown_part_note(path: Seq<char>, pid: Seq<char>) -> Seq<char> {
    path + ": unknown part '"@ + pid + "' (parts of this block only)"@
}

/// A measured leaf.
pub open spec fn measured_leaf(f: Frame, t: TreeV, path: Seq<char>, in_row: bool) -> MeasuredV {
    let pid = t.style.part->0;
    match keyed_part(f, pid, f.parts@.len() as int) {
        None => MeasuredV {
            t,
            node: flex::no_node(),
            notes: seq![unknown_part_note(path, pid)],
        },
        Some(i) => {
            let p = f.parts@[i as int];
            let l = orient::leaf_pose(p, f, t.style, pid, in_row);
            MeasuredV {
                t: if l.drop_rot {
                    TreeV { style: StyleV { rot: None, ..t.style }, ..t }
                } else {
                    t
                },
                node: MV {
                    part: Some(i),
                    rot: l.rot,
                    mirror: l.mirror,
                    room: orient::leaf_room(
                        p,
                        l.rot as int,
                        symlib::mirror_spec(l.mirror),
                        in_row,
                    ),
                    ..flex::no_node()
                },
                notes: l.notes,
            }
        },
    }
}

pub open spec fn sub_path(path: Seq<char>, row: bool, i: int) -> Seq<char> {
    path + "."@ + (if row {
        "row"@
    } else {
        "col"@
    }) + "["@ + text::digits(i as nat) + "]"@
}

/// A tree with measured children.
pub open spec fn with_children(t: TreeV, row: bool, v: Seq<TreeV>) -> TreeV {
    if row {
        TreeV { row: v, ..t }
    } else {
        TreeV { col: v, ..t }
    }
}

/// Children turned to each other and, in a row, columns lined up with pins.
#[verifier::opaque]
pub open spec fn arranged(f: Frame, m: ListMeasuredV, row: bool) -> Seq<MV> {
    let a = flex::all_faced(f, m.nodes, m.ts, row);
    if row {
        flex::all_lined_up(f, a)
    } else {
        a
    }
}

/// What wrapping makes of a row: nothing unless it is too wide and may still be wrapped.
#[verifier::opaque]
pub open spec fn wrapping(f: Frame, kids: Seq<MV>, ts: Seq<TreeV>, row: bool, s: StyleV, path: Seq<char>) -> Option<
    WrapV,
> {
    let gap = orient::cut(s.gap);
    let maxw = orient::cut(s.wrap);
    if row && !s.wrapped && kids.len() >= 2 && line_len(kids, gap, true, kids.len() as int) > maxw {
        wrapped_row(f, kids, ts, s, gap, maxw, path)
    } else {
        None
    }
}

/// A layout tree measured in a row or a column.
pub open spec fn measured(f: Frame, t: TreeV, path: Seq<char>, in_row: bool, fuel: nat) -> MeasuredV
    decreases fuel, t, 0nat,
{
    if t.style.part is Some {
        measured_leaf(f, t, path, in_row)
    } else if !t.is_row && !t.is_col {
        MeasuredV {
            t,
            node: flex::no_node(),
            notes: seq![path + ": node must have 'part', 'row' or 'col'"@],
        }
    } else {
        let row = t.is_row;
        let m = if row {
            measured_in(f, t.row, path, true, fuel, t.row.len())
        } else {
            measured_in(f, t.col, path, false, fuel, t.col.len())
        };
        let t1 = with_children(t, row, m.ts);
        let kids = arranged(f, m, row);
        match wrapping(f, kids, m.ts, row, t.style, path) {
            Some(w) => if fuel > 0 {
                let again = measured(f, w.t, path, in_row, (fuel - 1) as nat);
                MeasuredV {
                    t: t1,
                    node: again.node,
                    notes: m.notes + seq![w.note] + again.notes,
                }
            } else {
                MeasuredV { t: t1, node: container(f, kids, row, t.style), notes: m.notes }
            },
            None => MeasuredV { t: t1, node: container(f, kids, row, t.style), notes: m.notes },
        }
    }
}

/// The first `n` children of a row or a column, measured.
pub open spec fn measured_in(
    f: Frame,
    v: Seq<TreeV>,
    path: Seq<char>,
    row: bool,
    fuel: nat,
    n: nat,
) -> ListMeasuredV
    decreases fuel, v, n,
{
    if n == 0 || n > v.len() {
        ListMeasuredV { ts: Seq::empty(), nodes: Seq::empty(), notes: Seq::empty() }
    } else {
        let b = measured_in(f, v, path, row, fuel, (n - 1) as nat);
        let m = measured(f, v[n - 1], sub_path(path, row, n - 1), row, fuel);
        ListMeasuredV {
            ts: b.ts.push(m.t),
            nodes: b.nodes.push(m.node),
            notes: b.notes + m.notes,
        }
    }
}

#[derive(Debug)]
pub struct Measured {
    pub t: Tree,
    pub node: MNode,
    pub notes: Vec<String>,
}

impl Measured {
    pub open spec fn view(&self) -> MeasuredV {
        MeasuredV { t: self.t@, node: self.node@, notes: text::views(self.notes@) }
    }
}

#[derive(Debug)]
pub struct ListMeasured {
    pub ts: Vec<Tree>,
    pub nodes: Vec<MNode>,
    pub notes: Vec<String>,
}

impl ListMeasured {
    pub open spec fn view(&self) -> ListMeasuredV {
        ListMeasuredV {
            ts: tree::trees_v(self.ts@),
            nodes: flex::nodes_v(self.nodes@),
            notes: text::views(self.notes@),
        }
    }
}

fn nobody() -> (r: MNode)
    ensures
        r@ == flex::no_node(),
{
    let r = MNode {
        kind: Kind::Leaf,
        room: Room {
            w: 508_000,
            h: 508_000,
            ax: 254_000,
            ay: 254_000,
            aax: 254_000,
            aay: 254_000,
        },
        part: None,
        rot: 0,
        mirror: "".to_owned(),
        children: Vec::new(),
        gap: 0,
        align: "center".to_owned(),
        offsets: None,
    };
    assert(r@.children =~= Seq::<MV>::empty());
    r
}

fn one_note(n: String) -> (r: Vec<String>)
    ensures
        text::views(r@) == seq![n@],
{
    let ghost nv = n@;
    let mut r: Vec<String> = Vec::new();
    r.push(n);
    assert(text::views(r@) =~= seq![nv]);
    r
}

fn measure_leaf(f: &Frame, t: &Tree, pid: &String, path: &str, in_row: bool) -> (r: Measured)
    requires
        f.wf(),
        t@.style.part == Some(pid@),
    ensures
        r@ == measured_leaf(*f, t@, path@, in_row),
{
    match find_keyed(f, pid.as_str()) {
        None => {
            let n = Line::of(path).add(": unknown part '").add(pid.as_str()).add(
                "' (parts of this block only)",
            ).done();
            Measured { t: t.dup(), node: nobody(), notes: one_note(n) }
        },
        Some(i) => {
            let p = &f.parts[i];
            let l = orient_leaf(p, f, &t.style, pid.as_str(), in_row);
            let room = align_line(p, l.rot, l.mirror.as_str(), in_row);
            let mut t1 = t.dup();
            proof {
                tree::lemma_tree_view(t1);
            }
            if l.drop_rot {
                t1.style.rot = None;
                proof {
                    tree::lemma_tree_view(t1);
                }
                assert(t1@ =~= TreeV { style: StyleV { rot: None, ..t@.style }, ..t@ });
            }
            let mut node = nobody();
            proof {
                flex::lemma_node_view(node);
            }
            node.part = Some(i);
            node.rot = l.rot;
            node.mirror = l.mirror;
            node.room = room;
            proof {
                flex::lemma_node_view(node);
            }
            assert(node@ =~= measured_leaf(*f, t@, path@, in_row).node);
            Measured { t: t1, node, notes: l.notes }
        },
    }
}

fn path_of(path: &str, row: bool, i: usize) -> (r: String)
    ensures
        r@ == sub_path(path@, row, i as int),
{
    let kind = if row { "row" } else { "col" };
    Line::of(path).add(".").add(kind).add("[").count(i as u128).add("]").done()
}

fn measure_in(f: &Frame, v: &Vec<Tree>, path: &str, row: bool, fuel: u64) -> (r: ListMeasured)
    requires
        f.wf(),
    ensures
        r@ == measured_in(*f, tree::trees_v(v@), path@, row, fuel as nat, v@.len()),
        r.ts@.len() == v@.len(),
        r.nodes@.len() == v@.len(),
    decreases fuel, v, 1nat,
{
    let ghost tv = tree::trees_v(v@);
    let mut ts: Vec<Tree> = Vec::new();
    let mut nodes: Vec<MNode> = Vec::new();
    let mut notes: Vec<String> = Vec::new();
    let mut i: usize = 0;
    assert(tree::trees_v(ts@) =~= Seq::empty());
    assert(flex::nodes_v(nodes@) =~= Seq::empty());
    assert(text::views(notes@) =~= Seq::empty());
    while i < v.len()
        invariant
            i <= v@.len(),
            f.wf(),
            tv == tree::trees_v(v@),
            ts@.len() == i,
            nodes@.len() == i,
            (ListMeasuredV {
                ts: tree::trees_v(ts@),
                nodes: flex::nodes_v(nodes@),
                notes: text::views(notes@),
            }) =~= measured_in(*f, tv, path@, row, fuel as nat, i as nat),
        decreases v@.len() - i,
    {
        assert(tv[i as int] == v@[i as int]@);
        let ghost b = measured_in(*f, tv, path@, row, fuel as nat, i as nat);
        let sub = path_of(path, row, i);
        assert(decreases_to!(v => v@[i as int]));
        let m = measure(f, &v[i], sub.as_str(), row, fuel);
        let ghost mv = m@;
        let mut more = m.notes;
        let ghost n0 = notes@;
        let ghost m0 = more@;
        ts.push(m.t);
        nodes.push(m.node);
        notes.append(&mut more);
        proof {
            assert(notes@ =~= n0 + m0);
            assert(text::views(notes@) =~= text::views(n0) + text::views(m0));
            assert(tree::trees_v(ts@) =~= b.ts.push(mv.t));
            assert(flex::nodes_v(nodes@) =~= b.nodes.push(mv.node));
        }
        i += 1;
    }
    ListMeasured { ts, nodes, notes }
}

fn arrange(f: &Frame, m: &ListMeasured, row: bool) -> (r: Vec<MNode>)
    requires
        f.wf(),
        m.ts@.len() == m.nodes@.len(),
    ensures
        flex::nodes_v(r@) == arranged(*f, m@, row),
        r@.len() == m.nodes@.len(),
{
    proof {
        reveal(arranged);
    }
    let a = face_neighbours(f, &m.nodes, &m.ts, row);
    if row {
        line_up(f, &a)
    } else {
        a
    }
}

fn wrap(f: &Frame, kids: &Vec<MNode>, ts: &Vec<Tree>, row: bool, s: &Style, path: &str) -> (r: Option<
    (Tree, String),
>)
    requires
        f.wf(),
        ts@.len() == kids@.len(),
    ensures
        match r {
            Some(w) => wrapping(
                *f,
                flex::nodes_v(kids@),
                tree::trees_v(ts@),
                row,
                s@,
                path@,
            ) == Some((WrapV { t: w.0@, note: w.1@ })),
            None => wrapping(*f, flex::nodes_v(kids@), tree::trees_v(ts@), row, s@, path@) is None,
        },
{
    proof {
        reveal(wrapping);
    }
    let gap = cut_off(s.gap);
    let maxw = cut_off(s.wrap);
    if row && !s.wrapped && kids.len() >= 2 && find_len(kids, gap, true) > maxw {
        wrap_row(f, kids, ts, s, gap, maxw, path)
    } else {
        None
    }
}

/// What is measured of a node without the wrapping of its row.
struct Inside {
    t: Tree,
    kids: Vec<MNode>,
    notes: Vec<String>,
    wrap: Option<(Tree, String)>,
}

fn settle(f: &Frame, t: &Tree, m: ListMeasured, path: &str) -> (r: Inside)
    requires
        f.wf(),
        m.ts@.len() == m.nodes@.len(),
    ensures
        r.t@ == with_children(t@, t.is_row, m@.ts),
        flex::nodes_v(r.kids@) == arranged(*f, m@, t.is_row),
        text::views(r.notes@) == m@.notes,
        match r.wrap {
            Some(w) => wrapping(
                *f,
                arranged(*f, m@, t.is_row),
                m@.ts,
                t.is_row,
                t@.style,
                path@,
            ) == Some((WrapV { t: w.0@, note: w.1@ })),
            None => wrapping(
                *f,
                arranged(*f, m@, t.is_row),
                m@.ts,
                t.is_row,
                t@.style,
                path@,
            ) is None,
        },
{
    let ghost mv = m@;
    let row = t.is_row;
    let kids = arrange(f, &m, row);
    let w = wrap(f, &kids, &m.ts, row, &t.style, path);
    let mut t1 = t.dup();
    proof {
        tree::lemma_tree_view(*t);
        tree::lemma_tree_view(t1);
    }
    if row {
        t1.row = m.ts;
    } else {
        t1.col = m.ts;
    }
    proof {
        tree::lemma_tree_view(t1);
    }
    assert(t1@ =~= with_children(t@, row, mv.ts));
    Inside { t: t1, kids, notes: m.notes, wrap: w }
}

fn append_notes(notes: &mut Vec<String>, note: String, more: Vec<String>)
    ensures
        text::views(final(notes)@) == text::views(old(notes)@) + seq![note@] + text::views(more@),
{
    let ghost n0 = text::views(notes@);
    let ghost nv = note@;
    let ghost mv = text::views(more@);
    let mut more = more;
    notes.push(note);
    notes.append(&mut more);
    assert(text::views(notes@) =~= n0 + seq![nv] + mv);
}

/// Measures a layout tree.
#[verifier::spinoff_prover]
pub fn measure(f: &Frame, t: &Tree, path: &str, in_row: bool, fuel: u64) -> (r: Measured)
    requires
        f.wf(),
    ensures
        r@ == measured(*f, t@, path@, in_row, fuel as nat),
    decreases fuel, t, 0nat,
{
    match &t.style.part {
        Some(pid) => return measure_leaf(f, t, pid, path, in_row),
        None => {},
    }
    if !t.is_row && !t.is_col {
        let n = Line::of(path).add(": node must have 'part', 'row' or 'col'").done();
        return Measured { t: t.dup(), node: nobody(), notes: one_note(n) };
    }
    proof {
        tree::lemma_tree_view(*t);
        assert(decreases_to!(t => t.row));
        assert(decreases_to!(t => t.col));
    }
    let row = t.is_row;
    let m = if row {
        measure_in(f, &t.row, path, true, fuel)
    } else {
        measure_in(f, &t.col, path, false, fuel)
    };
    let ghost mv = m@;
    let b = settle(f, t, m, path);
    let mut notes = b.notes;
    if fuel > 0 {
        match b.wrap {
            Some((wt, note)) => {
                let again = measure(f, &wt, path, in_row, fuel - 1);
                append_notes(&mut notes, note, again.notes);
                let r = Measured { t: b.t, node: again.node, notes };
                assert(r@ =~= measured(*f, t@, path@, in_row, fuel as nat));
                return r;
            },
            None => {},
        }
    }
    let node = make_container(f, b.kids, row, &t.style);
    let r = Measured { t: b.t, node, notes };
    assert(r@ =~= measured(*f, t@, path@, in_row, fuel as nat));
    r
}

// ---------------------------------------------------------------- placing
/// Where a part goes and how it is turned.
#[verifier::ext_equal]
pub struct PlaceV {
    pub key: Seq<char>,
    pub at: Pt,
    pub rot: i32,
    pub mirror: Seq<char>,
}

#[derive(Debug)]
pub struct Placement {
    pub key: String,
    pub at: Pt,
    pub rot: i32,
    pub mirror: String,
}

impl Placement {
    pub open spec fn view(&self) -> PlaceV {
        PlaceV { key: self.key@, at: self.at, rot: self.rot, mirror: self.mirror@ }
    }
}

pub open spec fn places_v(v: Seq<Placement>) -> Seq<PlaceV> {
    Seq::new(v.len(), |i: int| v[i]@)
}

/// The anchor of a part whose alignment line is snapped to every second grid line.
pub open spec fn anchor(v: i64, line: i64, own: i64) -> i64 {
    let l = geo::snap_even_spec(orient::cut(v + line) as int);
    let a = orient::cut(l - (line - own));
    (model_json::even_quotient(a as int, GRID as int) * GRID) as i64
}

/// Where the child of a row or a column begins along it.
pub open spec fn child_at(k: MV, base: i64, i: int) -> i64
    decreases i,
{
    let from = if i <= 0 {
        base
    } else {
        let p = k.children[i - 1];
        orient::cut(
            child_at(k, base, i - 1) + (if k.kind == Kind::Row {
                p.room.w
            } else {
                p.room.h
            }) + k.gap,
        )
    };
    match k.offsets {
        Some(o) => if k.kind == Kind::Col && 0 <= i < o.len() {
            orient::cut(base + o[i])
        } else {
            from
        },
        None => from,
    }
}

/// Where a child begins across its row or column.
pub open spec fn child_across(k: MV, base: i64, c: MV) -> i64 {
    let (size, line, own, own_line) = if k.kind == Kind::Row {
        (k.room.h as int, k.room.ay as int, c.room.h as int, c.room.ay as int)
    } else {
        (k.room.w as int, k.room.ax as int, c.room.w as int, c.room.ax as int)
    };
    if k.align == "center"@ {
        orient::cut(base + line - own_line)
    } else if k.align == "end"@ {
        orient::cut(base + size - own)
    } else {
        base
    }
}

/// The parts of a node whose box begins at a point.
pub open spec fn placed(f: Frame, k: MV, x: i64, y: i64) -> Seq<PlaceV>
    decreases k, 0nat,
{
    if k.kind == Kind::Leaf {
        if flex::known(f, k) {
            seq![
                PlaceV {
                    key: flex::part_of(f, k).key@,
                    at: Pt {
                        x: anchor(x, k.room.ax, k.room.aax),
                        y: anchor(y, k.room.ay, k.room.aay),
                    },
                    rot: k.rot,
                    mirror: k.mirror,
                },
            ]
        } else {
            Seq::empty()
        }
    } else {
        placed_in(f, k, k.children, x, y, k.children.len())
    }
}

pub open spec fn placed_in(f: Frame, k: MV, v: Seq<MV>, x: i64, y: i64, n: nat) -> Seq<PlaceV>
    decreases v, n,
{
    if n == 0 || n > v.len() {
        Seq::empty()
    } else {
        let c = v[n - 1];
        placed_in(f, k, v, x, y, (n - 1) as nat) + (if k.kind == Kind::Row {
            placed(f, c, child_at(k, x, n - 1), child_across(k, y, c))
        } else {
            placed(f, c, child_across(k, x, c), child_at(k, y, n - 1))
        })
    }
}

proof fn lemma_anchor(a: int)
    requires
        orient::fits(a),
    ensures
        symlib::near(model_json::even_quotient(a, GRID as int) * GRID),
{
}

fn find_anchor(v: i64, line: i64, own: i64) -> (r: i64)
    ensures
        r == anchor(v, line, own),
        symlib::near(r as int),
{
    let l = snap_even(cut_wide(v as i128 + line as i128));
    let a = cut_wide(l as i128 - (line as i128 - own as i128));
    let q = divide_even(a as i128, GRID as i128);
    proof {
        lemma_anchor(a as int);
    }
    (q * GRID as i128) as i64
}

fn find_across(k: &MNode, base: i64, c: &MNode) -> (r: i64)
    ensures
        r == child_across(k@, base, c@),
{
    let row = k.kind == Kind::Row;
    if same(k.align.as_str(), "center") {
        let line = if row { k.room.ay } else { k.room.ax };
        let own = if row { c.room.ay } else { c.room.ax };
        cut_wide(base as i128 + line as i128 - own as i128)
    } else if same(k.align.as_str(), "end") {
        let size = if row { k.room.h } else { k.room.w };
        let own = if row { c.room.h } else { c.room.w };
        cut_wide(base as i128 + size as i128 - own as i128)
    } else {
        base
    }
}

/// Puts the parts of a measured tree where they go.
pub fn place(f: &Frame, k: &MNode, x: i64, y: i64) -> (r: Vec<Placement>)
    requires
        f.wf(),
    ensures
        places_v(r@) == placed(*f, k@, x, y),
        forall|i: int| 0 <= i < r@.len() ==> symlib::near_pt((#[trigger] r@[i]).at),
    decreases k,
{
    let mut r: Vec<Placement> = Vec::new();
    if k.kind == Kind::Leaf {
        match known_part(f, k) {
            Some(p) => {
                let at = Pt {
                    x: find_anchor(x, k.room.ax, k.room.aax),
                    y: find_anchor(y, k.room.ay, k.room.aay),
                };
                r.push(
                    Placement { key: p.key.clone(), at, rot: k.rot, mirror: k.mirror.clone() },
                );
                assert(places_v(r@) =~= placed(*f, k@, x, y));
                return r;
            },
            None => {
                assert(places_v(r@) =~= Seq::empty());
                return r;
            },
        }
    }
    proof {
        flex::lemma_node_view(*k);
    }
    let ghost kv = k@.children;
    let row = k.kind == Kind::Row;
    let base = if row { x } else { y };
    let mut from = base;
    let mut i: usize = 0;
    assert(places_v(r@) =~= Seq::empty());
    while i < k.children.len()
        invariant
            i <= k.children@.len(),
            f.wf(),
            kv == flex::nodes_v(k.children@),
            kv == k@.children,
            k.kind != Kind::Leaf,
            row == (k.kind == Kind::Row),
            base == (if row {
                x
            } else {
                y
            }),
            i == 0 ==> from == base,
            i > 0 ==> from == orient::cut(
                child_at(k@, base, i - 1) + (if row {
                    kv[i - 1].room.w
                } else {
                    kv[i - 1].room.h
                }) + k.gap,
            ),
            places_v(r@) == placed_in(*f, k@, kv, x, y, i as nat),
            forall|j: int| 0 <= j < r@.len() ==> symlib::near_pt((#[trigger] r@[j]).at),
        decreases k.children@.len() - i,
    {
        let c = &k.children[i];
        assert(kv[i as int] == c@);
        assert(decreases_to!(k => k.children));
        assert(decreases_to!(k.children => k.children@[i as int]));
        match &k.offsets {
            Some(o) => {
                if !row && i < o.len() {
                    from = cut_wide(base as i128 + o[i] as i128);
                }
            },
            None => {},
        }
        assert(from == child_at(k@, base, i as int));
        let mut more = if row {
            place(f, c, from, find_across(k, y, c))
        } else {
            place(f, c, find_across(k, x, c), from)
        };
        let size = if row { c.room.w } else { c.room.h };
        from = cut_wide(from as i128 + size as i128 + k.gap as i128);
        let ghost r0 = r@;
        let ghost m0 = more@;
        r.append(&mut more);
        assert(r@ =~= r0 + m0);
        assert(places_v(r@) =~= places_v(r0) + places_v(m0));
        i += 1;
    }
    r
}

} // verus!
