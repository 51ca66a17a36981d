//! Layout trees: rows and columns of parts.
use crate::text;
use crate::text::{contains, same, Line};
use vstd::prelude::*;

verus! {

/// What a node says of itself, apart from what it holds. Lengths are in hundred-thousandths of a
/// millimetre.
#[derive(Debug)]
pub struct Style {
    pub part: Option<String>,
    pub unit: i32,
    pub rot: Option<i32>,
    pub mirror: Option<String>,
    pub gap: i64,
    pub wrap: i64,
    pub align: String,
    /// The node came out of wrapping a row.
    pub wrapped: bool,
}

#[verifier::ext_equal]
pub struct StyleV {
    pub part: Option<Seq<char>>,
    pub unit: int,
    pub rot: Option<int>,
    pub mirror: Option<Seq<char>>,
    pub gap: int,
    pub wrap: int,
    pub align: Seq<char>,
    pub wrapped: bool,
}

/// A node of a layout tree: a part, a row or a column.
#[derive(Debug)]
pub struct Tree {
    pub style: Style,
    pub is_row: bool,
    pub row: Vec<Tree>,
    pub is_col: bool,
    pub col: Vec<Tree>,
}

#[verifier::ext_equal]
pub struct TreeV {
    pub style: StyleV,
    pub is_row: bool,
    pub row: Seq<TreeV>,
    pub is_col: bool,
    pub col: Seq<TreeV>,
}

pub open spec fn text_v(t: Option<String>) -> Option<Seq<char>> {
    match t {
        Some(s) => Some(s@),
        None => None,
    }
}

impl Style {
    pub open spec fn view(&self) -> StyleV {
        StyleV {
            part: text_v(self.part),
            unit: self.unit as int,
            rot: match self.rot {
                Some(r) => Some(r as int),
                None => None,
            },
            mirror: text_v(self.mirror),
            gap: self.gap as int,
            wrap: self.wrap as int,
            align: self.align@,
            wrapped: self.wrapped,
        }
    }
}

pub const DEFAULT_GAP: i64 = 1_016_000;

pub const DEFAULT_WRAP: i64 = 19_050_000;

impl StyleV {
    /// A node that says nothing.
    pub open spec fn plain() -> StyleV {
        StyleV {
            part: None,
            unit: 1,
            rot: None,
            mirror: None,
            gap: DEFAULT_GAP as int,
            wrap: DEFAULT_WRAP as int,
            align: "center"@,
            wrapped: false,
        }
    }
}

impl Tree {
    pub open spec fn view(&self) -> TreeV
        decreases self,
    {
        TreeV {
            style: self.style@,
            is_row: self.is_row,
            row: Seq::new(
                self.row@.len(),
                |i: int|
                    if 0 <= i < self.row@.len() {
                        self.row@[i].view()
                    } else {
                        TreeV::nothing()
                    },
            ),
            is_col: self.is_col,
            col: Seq::new(
                self.col@.len(),
                |i: int|
                    if 0 <= i < self.col@.len() {
                        self.col@[i].view()
                    } else {
                        TreeV::nothing()
                    },
            ),
        }
    }
}

impl TreeV {
    pub open spec fn nothing() -> TreeV {
        TreeV {
            style: StyleV::plain(),
            is_row: false,
            row: Seq::empty(),
            is_col: false,
            col: Seq::empty(),
        }
    }

    /// A part.
    pub open spec fn leaf(key: Seq<char>) -> TreeV {
        TreeV { style: StyleV { part: Some(key), ..StyleV::plain() }, ..TreeV::nothing() }
    }

    pub open spec fn row_of(v: Seq<TreeV>, gap: int, align: Seq<char>) -> TreeV {
        TreeV {
            style: StyleV { gap, align, ..StyleV::plain() },
            is_row: true,
            row: v,
            ..TreeV::nothing()
        }
    }

    pub open spec fn col_of(v: Seq<TreeV>, gap: int, align: Seq<char>) -> TreeV {
        TreeV {
            style: StyleV { gap, align, ..StyleV::plain() },
            is_col: true,
            col: v,
            ..TreeV::nothing()
        }
    }
}

pub open spec fn trees_v(v: Seq<Tree>) -> Seq<TreeV> {
    Seq::new(v.len(), |i: int| v[i]@)
}

pub proof fn lemma_tree_view(t: Tree)
    ensures
        t@.row == trees_v(t.row@),
        t@.col == trees_v(t.col@),
{
    assert(t@.row =~= trees_v(t.row@));
    assert(t@.col =~= trees_v(t.col@));
}

fn dup_text(t: &Option<String>) -> (r: Option<String>)
    ensures
        text_v(r) == text_v(*t),
{
    match t {
        Some(s) => Some(s.clone()),
        None => None,
    }
}

impl Style {
    pub fn plain() -> (r: Style)
        ensures
            r@ == StyleV::plain(),
    {
        Style {
            part: None,
            unit: 1,
            rot: None,
            mirror: None,
            gap: DEFAULT_GAP,
            wrap: DEFAULT_WRAP,
            align: "center".to_owned(),
            wrapped: false,
        }
    }

    pub fn dup(&self) -> (r: Style)
        ensures
            r@ == self@,
    {
        Style {
            part: dup_text(&self.part),
            unit: self.unit,
            rot: self.rot,
            mirror: dup_text(&self.mirror),
            gap: self.gap,
            wrap: self.wrap,
            align: self.align.clone(),
            wrapped: self.wrapped,
        }
    }
}

impl Tree {
    pub fn leaf(key: &str) -> (r: Tree)
        ensures
            r@ == TreeV::leaf(key@),
    {
        let mut style = Style::plain();
        style.part = Some(key.to_owned());
        let r = Tree { style, is_row: false, row: Vec::new(), is_col: false, col: Vec::new() };
        assert(r@.style =~= TreeV::leaf(key@).style);
        assert(r@.row =~= Seq::<TreeV>::empty());
        assert(r@.col =~= Seq::<TreeV>::empty());
        r
    }

    pub fn row_of(v: Vec<Tree>, gap: i64, align: &str) -> (r: Tree)
        ensures
            r@ == TreeV::row_of(trees_v(v@), gap as int, align@),
    {
        let mut style = Style::plain();
        style.gap = gap;
        style.align = align.to_owned();
        let ghost vv = trees_v(v@);
        let r = Tree { style, is_row: true, row: v, is_col: false, col: Vec::new() };
        proof {
            lemma_tree_view(r);
        }
        assert(r@.style =~= TreeV::row_of(vv, gap as int, align@).style);
        assert(r@.col =~= Seq::<TreeV>::empty());
        r
    }

    pub fn col_of(v: Vec<Tree>, gap: i64, align: &str) -> (r: Tree)
        ensures
            r@ == TreeV::col_of(trees_v(v@), gap as int, align@),
    {
        let mut style = Style::plain();
        style.gap = gap;
        style.align = align.to_owned();
        let ghost vv = trees_v(v@);
        let r = Tree { style, is_row: false, row: Vec::new(), is_col: true, col: v };
        proof {
            lemma_tree_view(r);
        }
        assert(r@.style =~= TreeV::col_of(vv, gap as int, align@).style);
        assert(r@.row =~= Seq::<TreeV>::empty());
        r
    }

    pub fn dup(&self) -> (r: Tree)
        ensures
            r@ == self@,
        decreases self,
    {
        let mut row: Vec<Tree> = Vec::new();
        let mut i: usize = 0;
        while i < self.row.len()
            invariant
                i <= self.row@.len(),
                row@.len() == i,
                forall|k: int| 0 <= k < i ==> (#[trigger] row@[k])@ == self.row@[k]@,
            decreases self.row@.len() - i,
        {
            assert(decreases_to!(self => self.row));
            assert(decreases_to!(self.row => self.row@[i as int]));
            row.push(self.row[i].dup());
            i += 1;
        }
        let mut col: Vec<Tree> = Vec::new();
        i = 0;
        while i < self.col.len()
            invariant
                i <= self.col@.len(),
                col@.len() == i,
                forall|k: int| 0 <= k < i ==> (#[trigger] col@[k])@ == self.col@[k]@,
            decreases self.col@.len() - i,
        {
            assert(decreases_to!(self => self.col));
            assert(decreases_to!(self.col => self.col@[i as int]));
            col.push(self.col[i].dup());
            i += 1;
        }
        let r = Tree { style: self.style.dup(), is_row: self.is_row, row, is_col: self.is_col, col };
        proof {
            lemma_tree_view(r);
            lemma_tree_view(*self);
            assert(trees_v(r.row@) =~= trees_v(self.row@));
            assert(trees_v(r.col@) =~= trees_v(self.col@));
        }
        assert(r@ =~= self@);
        r
    }
}

pub fn dup_trees(v: &Vec<Tree>) -> (r: Vec<Tree>)
    ensures
        trees_v(r@) == trees_v(v@),
{
    let mut r: Vec<Tree> = Vec::new();
    let mut i: usize = 0;
    while i < v.len()
        invariant
            i <= v@.len(),
            r@.len() == i,
            forall|k: int| 0 <= k < i ==> (#[trigger] r@[k])@ == v@[k]@,
        decreases v@.len() - i,
    {
        r.push(v[i].dup());
        i += 1;
    }
    assert(trees_v(r@) =~= trees_v(v@));
    r
}

// ---------------------------------------------------------------- the parts of a tree
/// The parts of a tree: a node's own first, then those of its row and its column.
pub open spec fn ids_of(t: TreeV) -> Seq<Seq<char>>
    decreases t, 0nat,
{
    (match t.style.part {
        Some(p) => seq![p],
        None => Seq::empty(),
    }) + ids_in(t.row, t.row.len()) + ids_in(t.col, t.col.len())
}

pub open spec fn ids_in(v: Seq<TreeV>, n: nat) -> Seq<Seq<char>>
    decreases v, n,
{
    if n == 0 || n > v.len() {
        Seq::empty()
    } else {
        ids_in(v, (n - 1) as nat) + ids_of(v[n - 1])
    }
}

pub fn tree_ids(t: &Tree) -> (r: Vec<String>)
    ensures
        text::views(r@) == ids_of(t@),
    decreases t,
{
    let mut r: Vec<String> = Vec::new();
    match &t.style.part {
        Some(p) => r.push(p.clone()),
        None => {},
    }
    let ghost head = match t@.style.part {
        Some(p) => seq![p],
        None => Seq::empty(),
    };
    proof {
        lemma_tree_view(*t);
    }
    let ghost rv = t@.row;
    let ghost cv = t@.col;
    assert(text::views(r@) =~= head + ids_in(rv, 0));
    let mut i: usize = 0;
    while i < t.row.len()
        invariant
            i <= t.row@.len(),
            rv == trees_v(t.row@),
            text::views(r@) == head + ids_in(rv, i as nat),
        decreases t.row@.len() - i,
    {
        assert(decreases_to!(t => t.row));
        assert(decreases_to!(t.row => t.row@[i as int]));
        assert(rv[i as int] == t.row@[i as int]@);
        let mut more = tree_ids(&t.row[i]);
        let ghost r0 = r@;
        let ghost m0 = more@;
        r.append(&mut more);
        assert(r@ =~= r0 + m0);
        assert(text::views(r@) =~= text::views(r0) + text::views(m0));
        assert(text::views(r@) =~= head + ids_in(rv, (i + 1) as nat));
        i += 1;
    }
    let ghost mid = head + ids_in(rv, rv.len());
    assert(text::views(r@) =~= mid + ids_in(cv, 0));
    i = 0;
    while i < t.col.len()
        invariant
            i <= t.col@.len(),
            cv == trees_v(t.col@),
            text::views(r@) == mid + ids_in(cv, i as nat),
        decreases t.col@.len() - i,
    {
        assert(decreases_to!(t => t.col));
        assert(decreases_to!(t.col => t.col@[i as int]));
        assert(cv[i as int] == t.col@[i as int]@);
        let mut more = tree_ids(&t.col[i]);
        let ghost r0 = r@;
        let ghost m0 = more@;
        r.append(&mut more);
        assert(r@ =~= r0 + m0);
        assert(text::views(r@) =~= text::views(r0) + text::views(m0));
        assert(text::views(r@) =~= mid + ids_in(cv, (i + 1) as nat));
        i += 1;
    }
    r
}

// ---------------------------------------------------------------- taking a leaf out
pub struct TakenV {
    pub t: TreeV,
    pub got: Option<TreeV>,
}

pub struct ListTakenV {
    pub v: Seq<TreeV>,
    pub got: Option<TreeV>,
}

/// A tree without the first leaf of a part below it, and that leaf.
pub open spec fn taken(t: TreeV, key: Seq<char>) -> TakenV
    decreases t, 0nat,
{
    let r = taken_from(t.row, key, t.row.len());
    if r.got is Some {
        TakenV { t: TreeV { row: r.v, ..t }, got: r.got }
    } else {
        let c = taken_from(t.col, key, t.col.len());
        TakenV { t: TreeV { col: c.v, ..t }, got: c.got }
    }
}

/// The same among the last `n` of a list of trees.
pub open spec fn taken_from(v: Seq<TreeV>, key: Seq<char>, n: nat) -> ListTakenV
    decreases v, n,
{
    if n == 0 || n > v.len() {
        ListTakenV { v, got: None }
    } else {
        let i = v.len() - n;
        if v[i].style.part == Some(key) {
            ListTakenV { v: v.remove(i), got: Some(v[i]) }
        } else {
            let c = taken(v[i], key);
            if c.got is Some {
                ListTakenV { v: v.update(i, c.t), got: c.got }
            } else {
                taken_from(v, key, (n - 1) as nat)
            }
        }
    }
}

pub open spec fn got_v(g: Option<Tree>) -> Option<TreeV> {
    match g {
        Some(t) => Some(t@),
        None => None,
    }
}

fn is_part(t: &Tree, key: &str) -> (r: bool)
    ensures
        r == (t@.style.part == Some(key@)),
{
    match &t.style.part {
        Some(p) => same(p.as_str(), key),
        None => false,
    }
}

/// Takes the first leaf of a part below a tree out of it.
pub fn take_leaf(t: &Tree, key: &str) -> (r: (Tree, Option<Tree>))
    ensures
        r.0@ == taken(t@, key@).t,
        got_v(r.1) == taken(t@, key@).got,
    decreases t, 0nat,
{
    proof {
        lemma_tree_view(*t);
        assert(decreases_to!(t => t.row));
        assert(decreases_to!(t => t.col));
    }
    let (row, got) = take_from(&t.row, key);
    match got {
        Some(g) => {
            let r = Tree {
                style: t.style.dup(),
                is_row: t.is_row,
                row,
                is_col: t.is_col,
                col: dup_trees(&t.col),
            };
            proof {
                lemma_tree_view(r);
            }
            assert(r@ =~= taken(t@, key@).t);
            (r, Some(g))
        },
        None => {
            let (col, got) = take_from(&t.col, key);
            let r = Tree {
                style: t.style.dup(),
                is_row: t.is_row,
                row: dup_trees(&t.row),
                is_col: t.is_col,
                col,
            };
            proof {
                lemma_tree_view(r);
            }
            assert(r@ =~= taken(t@, key@).t);
            (r, got)
        },
    }
}

fn take_from(v: &Vec<Tree>, key: &str) -> (r: (Vec<Tree>, Option<Tree>))
    ensures
        trees_v(r.0@) == taken_from(trees_v(v@), key@, v@.len()).v,
        got_v(r.1) == taken_from(trees_v(v@), key@, v@.len()).got,
    decreases v, 1nat,
{
    let ghost tv = trees_v(v@);
    let mut i: usize = 0;
    while i < v.len()
        invariant
            i <= v@.len(),
            tv == trees_v(v@),
            taken_from(tv, key@, v@.len()) == taken_from(tv, key@, (v@.len() - i) as nat),
        decreases v@.len() - i,
    {
        assert(tv[i as int] == v@[i as int]@);
        if is_part(&v[i], key) {
            let mut w = dup_trees(v);
            let ghost w0 = w@;
            let g = w.remove(i);
            assert(trees_v(w0)[i as int] == w0[i as int]@);
            assert(trees_v(w@) =~= tv.remove(i as int));
            return (w, Some(g));
        }
        assert(decreases_to!(v => v@[i as int]));
        let (c, got) = take_leaf(&v[i], key);
        if got.is_some() {
            let mut w = dup_trees(v);
            let ghost cv = c@;
            w.set(i, c);
            assert(trees_v(w@) =~= tv.update(i as int, cv));
            return (w, got);
        }
        i += 1;
    }
    (dup_trees(v), None)
}

// ---------------------------------------------------------------- replacing a leaf
pub struct ReplacedV {
    pub t: TreeV,
    pub done: bool,
}

pub struct ListReplacedV {
    pub v: Seq<TreeV>,
    pub done: bool,
}

/// A tree with the first leaf of a part below it replaced.
pub open spec fn replaced(t: TreeV, key: Seq<char>, by: TreeV) -> ReplacedV
    decreases t, 0nat,
{
    let r = replaced_in(t.row, key, by, t.row.len());
    if r.done {
        ReplacedV { t: TreeV { row: r.v, ..t }, done: true }
    } else {
        let c = replaced_in(t.col, key, by, t.col.len());
        ReplacedV { t: TreeV { col: c.v, ..t }, done: c.done }
    }
}

pub open spec fn replaced_in(v: Seq<TreeV>, key: Seq<char>, by: TreeV, n: nat) -> ListReplacedV
    decreases v, n,
{
    if n == 0 || n > v.len() {
        ListReplacedV { v, done: false }
    } else {
        let i = v.len() - n;
        if v[i].style.part == Some(key) {
            ListReplacedV { v: v.update(i, by), done: true }
        } else {
            let c = replaced(v[i], key, by);
            if c.done {
                ListReplacedV { v: v.update(i, c.t), done: true }
            } else {
                replaced_in(v, key, by, (n - 1) as nat)
            }
        }
    }
}

/// Replaces the first leaf of a part below a tree.
pub fn replace_leaf(t: &Tree, key: &str, by: &Tree) -> (r: (Tree, bool))
    ensures
        r.0@ == replaced(t@, key@, by@).t,
        r.1 == replaced(t@, key@, by@).done,
    decreases t, 0nat,
{
    proof {
        lemma_tree_view(*t);
        assert(decreases_to!(t => t.row));
        assert(decreases_to!(t => t.col));
    }
    let (row, done) = replace_in(&t.row, key, by);
    if done {
        let r = Tree {
            style: t.style.dup(),
            is_row: t.is_row,
            row,
            is_col: t.is_col,
            col: dup_trees(&t.col),
        };
        proof {
            lemma_tree_view(r);
        }
        assert(r@ =~= replaced(t@, key@, by@).t);
        (r, true)
    } else {
        let (col, done) = replace_in(&t.col, key, by);
        let r = Tree {
            style: t.style.dup(),
            is_row: t.is_row,
            row: dup_trees(&t.row),
            is_col: t.is_col,
            col,
        };
        proof {
            lemma_tree_view(r);
        }
        assert(r@ =~= replaced(t@, key@, by@).t);
        (r, done)
    }
}

fn replace_in(v: &Vec<Tree>, key: &str, by: &Tree) -> (r: (Vec<Tree>, bool))
    ensures
        trees_v(r.0@) == replaced_in(trees_v(v@), key@, by@, v@.len()).v,
        r.1 == replaced_in(trees_v(v@), key@, by@, v@.len()).done,
    decreases v, 1nat,
{
    let ghost tv = trees_v(v@);
    let mut i: usize = 0;
    while i < v.len()
        invariant
            i <= v@.len(),
            tv == trees_v(v@),
            replaced_in(tv, key@, by@, v@.len()) == replaced_in(
                tv,
                key@,
                by@,
                (v@.len() - i) as nat,
            ),
        decreases v@.len() - i,
    {
        assert(tv[i as int] == v@[i as int]@);
        if is_part(&v[i], key) {
            let mut w = dup_trees(v);
            w.set(i, by.dup());
            assert(trees_v(w@) =~= tv.update(i as int, by@));
            return (w, true);
        }
        assert(decreases_to!(v => v@[i as int]));
        let (c, done) = replace_leaf(&v[i], key, by);
        if done {
            let mut w = dup_trees(v);
            let ghost cv = c@;
            w.set(i, c);
            assert(trees_v(w@) =~= tv.update(i as int, cv));
            return (w, true);
        }
        i += 1;
    }
    (dup_trees(v), false)
}

// ---------------------------------------------------------------- pruning
pub struct PrunedV {
    pub t: TreeV,
    /// Something is left.
    pub left: bool,
}

/// A tree without empty rows and columns.
pub open spec fn pruned(t: TreeV) -> PrunedV
    decreases t, 0nat,
{
    if t.is_row {
        let v = pruned_list(t.row, t.row.len());
        PrunedV { t: TreeV { row: v, ..t }, left: v.len() > 0 }
    } else if t.is_col {
        let v = pruned_list(t.col, t.col.len());
        PrunedV { t: TreeV { col: v, ..t }, left: v.len() > 0 }
    } else {
        PrunedV { t, left: true }
    }
}

pub open spec fn pruned_list(v: Seq<TreeV>, n: nat) -> Seq<TreeV>
    decreases v, n,
{
    if n == 0 || n > v.len() {
        Seq::empty()
    } else {
        let p = pruned(v[n - 1]);
        if p.left {
            pruned_list(v, (n - 1) as nat).push(p.t)
        } else {
            pruned_list(v, (n - 1) as nat)
        }
    }
}

/// Drops empty rows and columns.
pub fn prune(t: &Tree) -> (r: (Tree, bool))
    ensures
        r.0@ == pruned(t@).t,
        r.1 == pruned(t@).left,
    decreases t, 0nat,
{
    proof {
        lemma_tree_view(*t);
        assert(decreases_to!(t => t.row));
        assert(decreases_to!(t => t.col));
    }
    if t.is_row {
        let row = prune_list(&t.row);
        let left = row.len() > 0;
        let r = Tree {
            style: t.style.dup(),
            is_row: t.is_row,
            row,
            is_col: t.is_col,
            col: dup_trees(&t.col),
        };
        proof {
            lemma_tree_view(r);
        }
        assert(r@ =~= pruned(t@).t);
        (r, left)
    } else if t.is_col {
        let col = prune_list(&t.col);
        let left = col.len() > 0;
        let r = Tree {
            style: t.style.dup(),
            is_row: t.is_row,
            row: dup_trees(&t.row),
            is_col: t.is_col,
            col,
        };
        proof {
            lemma_tree_view(r);
        }
        assert(r@ =~= pruned(t@).t);
        (r, left)
    } else {
        (t.dup(), true)
    }
}

fn prune_list(v: &Vec<Tree>) -> (r: Vec<Tree>)
    ensures
        trees_v(r@) == pruned_list(trees_v(v@), v@.len()),
        r@.len() == pruned_list(trees_v(v@), v@.len()).len(),
    decreases v, 1nat,
{
    let ghost tv = trees_v(v@);
    let mut r: Vec<Tree> = Vec::new();
    let mut i: usize = 0;
    assert(trees_v(r@) =~= pruned_list(tv, 0));
    while i < v.len()
        invariant
            i <= v@.len(),
            tv == trees_v(v@),
            trees_v(r@) == pruned_list(tv, i as nat),
        decreases v@.len() - i,
    {
        assert(tv[i as int] == v@[i as int]@);
        assert(decreases_to!(v => v@[i as int]));
        let (c, left) = prune(&v[i]);
        let ghost r0 = trees_v(r@);
        let ghost cv = c@;
        if left {
            r.push(c);
            assert(trees_v(r@) =~= r0.push(cv));
        }
        i += 1;
    }
    assert(trees_v(r@).len() == r@.len());
    r
}

// ---------------------------------------------------------------- keys of units
/// The key of a leaf: its part, with the unit behind it where that is not the first.
pub open spec fn unit_key(part: Seq<char>, unit: int) -> Seq<char> {
    if unit != 1 && !text::has(part, "#"@) {
        part + "#"@ + text::numeral(unit)
    } else {
        part
    }
}

/// A tree whose leaves are called by their keys.
pub open spec fn keyed(t: TreeV) -> TreeV
    decreases t, 0nat,
{
    TreeV {
        style: match t.style.part {
            Some(p) => StyleV { part: Some(unit_key(p, t.style.unit)), ..t.style },
            None => t.style,
        },
        row: keyed_list(t.row, t.row.len()),
        col: keyed_list(t.col, t.col.len()),
        ..t
    }
}

pub open spec fn keyed_list(v: Seq<TreeV>, n: nat) -> Seq<TreeV>
    decreases v, n,
{
    if n == 0 || n > v.len() {
        Seq::empty()
    } else {
        keyed_list(v, (n - 1) as nat).push(keyed(v[n - 1]))
    }
}

fn key_list(v: &Vec<Tree>) -> (r: Vec<Tree>)
    ensures
        trees_v(r@) == keyed_list(trees_v(v@), v@.len()),
    decreases v, 1nat,
{
    let ghost tv = trees_v(v@);
    let mut r: Vec<Tree> = Vec::new();
    let mut i: usize = 0;
    assert(trees_v(r@) =~= keyed_list(tv, 0));
    while i < v.len()
        invariant
            i <= v@.len(),
            tv == trees_v(v@),
            trees_v(r@) == keyed_list(tv, i as nat),
        decreases v@.len() - i,
    {
        assert(tv[i as int] == v@[i as int]@);
        assert(decreases_to!(v => v@[i as int]));
        let c = key_tree(&v[i]);
        let ghost r0 = trees_v(r@);
        let ghost cv = c@;
        r.push(c);
        assert(trees_v(r@) =~= r0.push(cv));
        i += 1;
    }
    r
}

/// Calls the leaves of a tree by their keys.
pub fn key_tree(t: &Tree) -> (r: Tree)
    ensures
        r@ == keyed(t@),
    decreases t, 0nat,
{
    proof {
        lemma_tree_view(*t);
        assert(decreases_to!(t => t.row));
        assert(decreases_to!(t => t.col));
    }
    let mut style = t.style.dup();
    match &t.style.part {
        Some(p) => {
            let key = if t.style.unit != 1 && !contains(p.as_str(), "#") {
                Line::of(p.as_str()).add("#").whole(t.style.unit as i64).done()
            } else {
                p.clone()
            };
            style.part = Some(key);
        },
        None => {},
    }
    let r = Tree {
        style,
        is_row: t.is_row,
        row: key_list(&t.row),
        is_col: t.is_col,
        col: key_list(&t.col),
    };
    proof {
        lemma_tree_view(r);
    }
    assert(r@.style =~= keyed(t@).style);
    assert(r@ =~= keyed(t@));
    r
}

/// Calls the leaves of a tree by their keys, and lists the keys in the order of the tree.
pub fn collect(t: &Tree) -> (r: (Tree, Vec<String>))
    ensures
        r.0@ == keyed(t@),
        text::views(r.1@) == ids_of(keyed(t@)),
{
    let k = key_tree(t);
    let ids = tree_ids(&k);
    (k, ids)
}

} // verus!
