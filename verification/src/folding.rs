//! How a row that is too wide is folded: nothing is lost or changes its order, and each row that
//! comes out keeps to the width that there is.
use crate::flex::MV;
use crate::geom;
use crate::group::Frame;
use crate::measure;
use crate::orient::LIMIT;
use crate::tree::{StyleV, TreeV};
use vstd::prelude::*;

verus! {

/// The width of the first `n` nodes of a row, with a gap between any two.
pub open spec fn width(kids: Seq<MV>, row: Seq<usize>, gap: int, n: int) -> int
    decreases n,
{
    if n <= 0 {
        0
    } else {
        width(kids, row, gap, n - 1) + (if n > 1 {
            gap
        } else {
            0
        }) + kids[row[n - 1] as int].room.w
    }
}

/// The width of a row.
pub open spec fn row_width(kids: Seq<MV>, row: Seq<usize>, gap: int) -> int {
    width(kids, row, gap, row.len() as int)
}

proof fn lemma_push(kids: Seq<MV>, row: Seq<usize>, gap: int, x: usize)
    ensures
        row_width(kids, row.push(x), gap) == row_width(kids, row, gap) + (if row.len() > 0 {
            gap
        } else {
            0
        }) + kids[x as int].room.w,
{
    lemma_prefix(kids, row, row.push(x), gap, row.len() as int);
}

proof fn lemma_prefix(kids: Seq<MV>, a: Seq<usize>, b: Seq<usize>, gap: int, n: int)
    requires
        0 <= n <= a.len() <= b.len(),
        forall|i: int| 0 <= i < a.len() ==> #[trigger] a[i] == b[i],
    ensures
        width(kids, a, gap, n) == width(kids, b, gap, n),
    decreases n,
{
    if n > 0 {
        lemma_prefix(kids, a, b, gap, n - 1);
        assert(a[n - 1] == b[n - 1]);
    }
}

proof fn lemma_rises(kids: Seq<MV>, row: Seq<usize>, gap: int, n: int)
    requires
        0 <= n <= row.len(),
        gap >= 0,
        forall|i: int| 0 <= i < row.len() ==> kids[#[trigger] row[i] as int].room.w >= 0,
    ensures
        0 <= width(kids, row, gap, n) <= row_width(kids, row, gap),
    decreases row.len() - n,
{
    lemma_low(kids, row, gap, n);
    if n < row.len() {
        lemma_rises(kids, row, gap, n + 1);
        assert(kids[row[n] as int].room.w >= 0);
    }
}

proof fn lemma_low(kids: Seq<MV>, row: Seq<usize>, gap: int, n: int)
    requires
        0 <= n <= row.len(),
        gap >= 0,
        forall|i: int| 0 <= i < row.len() ==> kids[#[trigger] row[i] as int].room.w >= 0,
    ensures
        0 <= width(kids, row, gap, n),
    decreases n,
{
    if n > 0 {
        lemma_low(kids, row, gap, n - 1);
        assert(kids[row[n - 1] as int].room.w >= 0);
    }
}

/// Whether a row keeps to a width: it does, or it is of one node.
pub open spec fn keeps_to(kids: Seq<MV>, row: Seq<usize>, gap: int, limit: int) -> bool {
    row.len() > 0 && (row.len() > 1 ==> row_width(kids, row, gap) <= limit)
}

/// Whether a row was left where it had to be: the first node of the next one did not fit.
pub open spec fn full(kids: Seq<MV>, row: Seq<usize>, next: Seq<usize>, gap: int, limit: int) -> bool {
    next.len() > 0 && row_width(kids, row, gap) + gap + kids[next[0] as int].room.w > limit
}

proof fn lemma_flat(v: Seq<Seq<usize>>, w: Seq<usize>)
    ensures
        v.push(w).flatten() == v.flatten() + w,
    decreases v.len(),
{
    if v.len() == 0 {
        let none: Seq<Seq<usize>> = Seq::empty();
        assert(v =~= none);
        assert(v.push(w).drop_first() =~= none);
        assert(v.push(w).first() == w);
        assert(none.flatten() =~= Seq::empty());
        assert(v.push(w).flatten() == w.add(none.flatten()));
        assert(v.push(w).flatten() =~= v.flatten() + w);
    } else {
        lemma_flat(v.drop_first(), w);
        assert(v.push(w).drop_first() =~= v.drop_first().push(w));
        assert(v.push(w).first() == v.first());
        assert(v.push(w).flatten() =~= v.flatten() + w);
    }
}

#[verifier::spinoff_prover]
#[verifier::rlimit(40)]
proof fn lemma_packing(kids: Seq<MV>, idx: Seq<usize>, gap: i64, limit: i64, n: int)
    requires
        0 <= n <= idx.len(),
        gap >= 0,
        forall|i: int| 0 <= i < idx.len() ==> kids[#[trigger] idx[i] as int].room.w >= 0,
        row_width(kids, idx, gap as int) <= LIMIT,
    ensures
        ({
            let p = measure::packing(kids, idx, gap, limit, n);
            &&& p.rows.push(p.cur).flatten() == idx.take(n)
            &&& p.w == row_width(kids, p.cur, gap as int)
            &&& 0 <= p.w <= width(kids, idx, gap as int, n)
            &&& n > 0 ==> keeps_to(kids, p.cur, gap as int, limit as int)
            &&& n == 0 ==> p.cur.len() == 0 && p.rows.len() == 0
            &&& forall|i: int|
                0 <= i < p.rows.len() ==> keeps_to(
                    kids,
                    #[trigger] p.rows[i],
                    gap as int,
                    limit as int,
                )
            &&& forall|i: int|
                0 <= i < p.rows.len() ==> full(
                    kids,
                    #[trigger] p.rows[i],
                    p.rows.push(p.cur)[i + 1],
                    gap as int,
                    limit as int,
                )
        }),
    decreases n,
{
    let p = measure::packing(kids, idx, gap, limit, n);
    if n > 0 {
        lemma_packing(kids, idx, gap, limit, n - 1);
        let b = measure::packing(kids, idx, gap, limit, n - 1);
        let x = idx[n - 1];
        let w = kids[x as int].room.w;
        let g = gap as int;
        assert(idx.take(n) =~= idx.take(n - 1).push(x));
        lemma_rises(kids, idx, g, n);
        lemma_rises(kids, idx, g, n - 1);
        lemma_push(kids, b.cur, g, x);
        lemma_flat(b.rows, b.cur);
        lemma_flat(p.rows, p.cur);
        if b.cur.len() > 0 && b.w + gap + w > limit {
            assert(p.rows == b.rows.push(b.cur));
            assert(p.cur =~= Seq::<usize>::empty().push(x));
            lemma_push(kids, Seq::empty(), g, x);
            assert(idx.take(n - 1) + p.cur =~= idx.take(n));
            assert forall|i: int| 0 <= i < p.rows.len() implies keeps_to(
                kids,
                #[trigger] p.rows[i],
                g,
                limit as int,
            ) by {
                if i < b.rows.len() {
                    assert(p.rows[i] == b.rows[i]);
                }
            }
            assert forall|i: int| 0 <= i < p.rows.len() implies full(
                kids,
                #[trigger] p.rows[i],
                p.rows.push(p.cur)[i + 1],
                g,
                limit as int,
            ) by {
                if i < b.rows.len() {
                    assert(p.rows[i] == b.rows[i]);
                    assert(p.rows.push(p.cur)[i + 1] == b.rows.push(b.cur)[i + 1]);
                }
            }
        } else {
            assert(p.rows == b.rows);
            assert(p.cur == b.cur.push(x));
            assert(b.rows.flatten() + b.cur.push(x) =~= (b.rows.flatten() + b.cur).push(x));
            assert forall|i: int| 0 <= i < p.rows.len() implies full(
                kids,
                #[trigger] p.rows[i],
                p.rows.push(p.cur)[i + 1],
                g,
                limit as int,
            ) by {
                assert(full(kids, b.rows[i], b.rows.push(b.cur)[i + 1], g, limit as int));
                if i + 1 == b.rows.len() {
                    assert(b.cur.len() > 0);
                    assert(p.cur[0] == b.cur[0]);
                }
            }
        }
    } else {
        lemma_flat(p.rows, p.cur);
        let none: Seq<Seq<usize>> = Seq::empty();
        assert(p.rows =~= none);
        assert(none.flatten() =~= Seq::empty());
        assert(p.rows.push(p.cur).flatten() =~= idx.take(0));
    }
}

/// Nodes that are packed into rows keep their order; each row keeps to the width or is of one
/// node, and ends only where the next node would not fit.
pub proof fn rows_keep_to_the_width(kids: Seq<MV>, idx: Seq<usize>, gap: i64, limit: i64)
    requires
        idx.len() > 0,
        gap >= 0,
        forall|i: int| 0 <= i < idx.len() ==> kids[#[trigger] idx[i] as int].room.w >= 0,
        row_width(kids, idx, gap as int) <= LIMIT,
    ensures
        ({
            let rows = measure::packed(kids, idx, gap, limit);
            &&& rows.flatten() == idx
            &&& forall|i: int|
                0 <= i < rows.len() ==> keeps_to(kids, #[trigger] rows[i], gap as int, limit as int)
            &&& forall|i: int|
                0 <= i < rows.len() - 1 ==> full(
                    kids,
                    #[trigger] rows[i],
                    rows[i + 1],
                    gap as int,
                    limit as int,
                )
        }),
{
    let n = idx.len() as int;
    lemma_packing(kids, idx, gap, limit, n);
    assert(idx.take(n) =~= idx);
    let p = measure::packing(kids, idx, gap, limit, n);
    let rows = measure::packed(kids, idx, gap, limit);
    assert forall|i: int| 0 <= i < rows.len() implies keeps_to(
        kids,
        #[trigger] rows[i],
        gap as int,
        limit as int,
    ) by {
        if i < p.rows.len() {
            assert(rows[i] == p.rows[i]);
        }
    }
    assert forall|i: int| 0 <= i < rows.len() - 1 implies full(
        kids,
        #[trigger] rows[i],
        rows[i + 1],
        gap as int,
        limit as int,
    ) by {
        assert(rows[i] == p.rows[i]);
    }
}

// ---------------------------------------------------------------- the folded row
proof fn lemma_in_rows(kids: Seq<MV>, idx: Seq<usize>, gap: i64, limit: i64, n: int, j: int)
    requires
        0 <= j < n <= idx.len(),
    ensures
        ({
            let p = measure::packing(kids, idx, gap, limit, n);
            exists|r: int|
                0 <= r < p.rows.push(p.cur).len() && (#[trigger] p.rows.push(p.cur)[r]).contains(
                    idx[j],
                )
        }),
    decreases n,
{
    let p = measure::packing(kids, idx, gap, limit, n);
    let b = measure::packing(kids, idx, gap, limit, n - 1);
    let now = p.rows.push(p.cur);
    let was = b.rows.push(b.cur);
    if j < n - 1 {
        lemma_in_rows(kids, idx, gap, limit, n - 1, j);
        let r = choose|r: int| 0 <= r < was.len() && (#[trigger] was[r]).contains(idx[j]);
        let m = choose|m: int| 0 <= m < was[r].len() && was[r][m] == idx[j];
        assert(now[r].len() > m && now[r][m] == idx[j]);
        assert(now[r].contains(idx[j]));
    } else {
        assert(p.cur[p.cur.len() - 1] == idx[j]);
        assert(now[p.rows.len() as int].contains(idx[j]));
    }
}

proof fn lemma_picked(f: Frame, kids: Seq<MV>, want: bool, n: int, i: int)
    requires
        0 <= i < n <= kids.len(),
        n <= usize::MAX,
        measure::tall(f, kids[i]) == want,
    ensures
        measure::picked(f, kids, want, n).contains(i as usize),
    decreases n,
{
    let a = measure::picked(f, kids, want, n - 1);
    let b = measure::picked(f, kids, want, n);
    if i < n - 1 {
        lemma_picked(f, kids, want, n - 1, i);
        let j = choose|j: int| 0 <= j < a.len() && a[j] == i as usize;
        assert(b[j] == i as usize);
    } else {
        assert(b[a.len() as int] == i as usize);
    }
}

/// Whether a tree stands in a row, or in a row of a column.
pub open spec fn holds(t: TreeV, c: TreeV) -> bool {
    ||| t.is_row && t.row.contains(c)
    ||| t.is_col && exists|r: int| 0 <= r < t.col.len() && (#[trigger] t.col[r]).is_row
        && t.col[r].row.contains(c)
}

proof fn lemma_in_column(
    kids: Seq<MV>,
    raws: Seq<TreeV>,
    idx: Seq<usize>,
    gap: i64,
    limit: i64,
    align: Seq<char>,
    space: int,
    i: int,
)
    requires
        0 <= i < raws.len(),
        i <= usize::MAX,
        idx.contains(i as usize),
    ensures
        holds(
            TreeV::col_of(
                measure::row_trees(
                    raws,
                    measure::packed(kids, idx, gap, limit),
                    gap as int,
                    align,
                ),
                space,
                "start"@,
            ),
            raws[i],
        ),
{
    let rows = measure::packed(kids, idx, gap, limit);
    let t = TreeV::col_of(measure::row_trees(raws, rows, gap as int, align), space, "start"@);
    let j = choose|j: int| 0 <= j < idx.len() && idx[j] == i as usize;
    lemma_in_rows(kids, idx, gap, limit, idx.len() as int, j);
    let r = choose|r: int| 0 <= r < rows.len() && (#[trigger] rows[r]).contains(idx[j]);
    let m = choose|m: int| 0 <= m < rows[r].len() && rows[r][m] == idx[j];
    assert(t.col[r].row == measure::picks(raws, rows[r]));
    assert(t.col[r].row[m] == raws[i]);
    assert(t.col[r].is_row && t.col[r].row.contains(raws[i]));
}

/// A folded row holds each node of the row: in rows one below the other, or, where some are tall,
/// the tall ones side by side and the others in such rows behind them.
pub proof fn a_folded_row_loses_nothing(
    f: Frame,
    kids: Seq<MV>,
    raws: Seq<TreeV>,
    s: StyleV,
    gap: i64,
    maxw: i64,
    path: Seq<char>,
    i: int,
)
    requires
        0 <= i < raws.len() == kids.len() <= usize::MAX,
        measure::wrapped_row(f, kids, raws, s, gap, maxw, path) is Some,
    ensures
        ({
            let t = measure::wrapped_row(f, kids, raws, s, gap, maxw, path)->0.t;
            holds(t, raws[i]) || (t.is_row && t.row.len() > 0 && holds(t.row.last(), raws[i]))
        }),
{
    let n = kids.len() as int;
    let big = measure::picked(f, kids, true, n);
    let small = measure::picked(f, kids, false, n);
    let t = measure::wrapped_row(f, kids, raws, s, gap, maxw, path)->0.t;
    if big.len() > 0 && small.len() > 0 {
        if measure::tall(f, kids[i]) {
            lemma_picked(f, kids, true, n, i);
            let j = choose|j: int| 0 <= j < big.len() && big[j] == i as usize;
            assert(t.row[j] == raws[i]);
            assert(t.row.contains(raws[i]));
        } else {
            lemma_picked(f, kids, false, n, i);
            let avail = measure::room_left(kids, big, gap, maxw, big.len() as int);
            let limit = geom::hi(avail as int, measure::LEAST_SIDE as int) as i64;
            lemma_in_column(
                kids,
                raws,
                small,
                gap,
                limit,
                s.align,
                measure::STACK_GAP as int,
                i,
            );
            assert(t.row.last() == TreeV::col_of(
                measure::row_trees(
                    raws,
                    measure::packed(kids, small, gap, limit),
                    gap as int,
                    s.align,
                ),
                measure::STACK_GAP as int,
                "start"@,
            ));
        }
    } else {
        let all = Seq::new(kids.len(), |i: int| i as usize);
        assert(all[i] == i as usize);
        lemma_in_column(kids, raws, all, gap, maxw, s.align, measure::STACK_GAP as int, i);
    }
}

} // verus!
