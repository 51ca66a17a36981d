//! What a check of a sheet finds: every fault is named, and a sheet without faults is not blamed.
use crate::check;
use crate::check::{Lookup, SheetV};
use crate::compile;
use crate::compile::Key;
use crate::dots;
use crate::dots::wires_meet;
use crate::geom::{BBox, Pt};
use crate::model::{DesignV, LabelV};
use crate::netlist;
use crate::pinref;
use crate::readable;
use crate::text;
use crate::touching;
use crate::touching::{label_counts, marked, runs};
use vstd::prelude::*;

verus! {

// ---------------------------------------------------------------- lines that only grow
/// What was said stays said.
pub open spec fn said(a: Seq<Seq<char>>, b: Seq<Seq<char>>) -> bool {
    a.len() <= b.len() && forall|i: int| 0 <= i < a.len() ==> b[i] == #[trigger] a[i]
}

proof fn lemma_said(a: Seq<Seq<char>>, b: Seq<Seq<char>>, c: Seq<Seq<char>>)
    requires
        said(a, b),
        said(b, c),
    ensures
        said(a, c),
{
    assert forall|i: int| 0 <= i < a.len() implies c[i] == #[trigger] a[i] by {
        assert(b[i] == a[i]);
    }
}

proof fn lemma_still(a: Seq<Seq<char>>, b: Seq<Seq<char>>, t: Seq<char>)
    requires
        said(a, b),
        a.contains(t),
    ensures
        b.contains(t),
{
    let i = choose|i: int| 0 <= i < a.len() && a[i] == t;
    assert(b[i] == t);
}

/// The notes of the first `n` things, behind others.
spec fn gathered(v: Seq<Seq<char>>, f: spec_fn(int) -> Option<Seq<char>>, n: int) -> Seq<Seq<char>>
    decreases n,
{
    if n <= 0 {
        v
    } else {
        pinref::with_error(gathered(v, f, n - 1), f(n - 1))
    }
}

/// Notes on the first `n` things are there, behind what was said before, and no others.
spec fn noting(
    v: Seq<Seq<char>>,
    f: spec_fn(int) -> Option<Seq<char>>,
    n: int,
    r: Seq<Seq<char>>,
) -> bool {
    &&& said(v, r)
    &&& forall|i: int| 0 <= i < n && (#[trigger] f(i)) is Some ==> r.contains(f(i)->0)
    &&& (forall|i: int| 0 <= i < n ==> (#[trigger] f(i)) is None) ==> r == v
}

proof fn lemma_gathered(v: Seq<Seq<char>>, f: spec_fn(int) -> Option<Seq<char>>, n: int)
    ensures
        noting(v, f, n, gathered(v, f, n)),
    decreases n,
{
    if n > 0 {
        lemma_gathered(v, f, n - 1);
        let s = gathered(v, f, n - 1);
        let r = gathered(v, f, n);
        assert(said(s, r));
        lemma_said(v, s, r);
        assert forall|i: int| 0 <= i < n && (#[trigger] f(i)) is Some implies r.contains(
            f(i)->0,
        ) by {
            if i < n - 1 {
                lemma_still(s, r, f(i)->0);
            } else {
                assert(r[s.len() as int] == f(i)->0);
            }
        }
    }
}

proof fn lemma_spot(
    s: SheetV,
    ends: Seq<Key>,
    k: Key,
    refs: Seq<compile::PinRefV>,
    v: Seq<Seq<char>>,
    n: int,
)
    ensures
        noting(
            v,
            |i: int| check::pin_note(s, ends, k, refs, refs[i]),
            n,
            check::spot_notes(s, ends, k, refs, v, n),
        ),
{
    let f = |i: int| check::pin_note(s, ends, k, refs, refs[i]);
    lemma_gathered(v, f, n);
    lemma_spot_is(s, ends, k, refs, v, n, f);
}

proof fn lemma_spot_is(
    s: SheetV,
    ends: Seq<Key>,
    k: Key,
    refs: Seq<compile::PinRefV>,
    v: Seq<Seq<char>>,
    n: int,
    f: spec_fn(int) -> Option<Seq<char>>,
)
    requires
        f == |i: int| check::pin_note(s, ends, k, refs, refs[i]),
    ensures
        check::spot_notes(s, ends, k, refs, v, n) == gathered(v, f, n),
    decreases n,
{
    if n > 0 {
        lemma_spot_is(s, ends, k, refs, v, n - 1, f);
    }
}

/// What is noted on pin `m` of entry `i`.
spec fn pin_said(s: SheetV, ends: Seq<Key>, i: int, m: int) -> Option<Seq<char>> {
    check::pin_note(s, ends, s.pins[i].0, s.pins[i].1, s.pins[i].1[m])
}

proof fn lemma_pins(s: SheetV, ends: Seq<Key>, v: Seq<Seq<char>>, n: int)
    requires
        0 <= n <= s.pins.len(),
    ensures
        said(v, check::pin_notes(s, ends, v, n)),
        forall|i: int, m: int|
            0 <= i < n && 0 <= m < s.pins[i].1.len() && (#[trigger] pin_said(
                s,
                ends,
                i,
                m,
            )) is Some ==> check::pin_notes(s, ends, v, n).contains(pin_said(s, ends, i, m)->0),
        (forall|i: int, m: int|
            0 <= i < n && 0 <= m < s.pins[i].1.len() ==> (#[trigger] pin_said(
                s,
                ends,
                i,
                m,
            )) is None) ==> check::pin_notes(s, ends, v, n) == v,
    decreases n,
{
    if n > 0 {
        lemma_pins(s, ends, v, n - 1);
        let w = check::pin_notes(s, ends, v, n - 1);
        let r = check::pin_notes(s, ends, v, n);
        let (k, refs) = s.pins[n - 1];
        lemma_spot(s, ends, k, refs, w, refs.len() as int);
        let f = |m: int| check::pin_note(s, ends, k, refs, refs[m]);
        lemma_said(v, w, r);
        assert forall|i: int, m: int|
            0 <= i < n && 0 <= m < s.pins[i].1.len() && (#[trigger] pin_said(
                s,
                ends,
                i,
                m,
            )) is Some implies r.contains(pin_said(s, ends, i, m)->0) by {
            if i < n - 1 {
                lemma_still(w, r, pin_said(s, ends, i, m)->0);
            } else {
                assert(f(m) == pin_said(s, ends, i, m));
            }
        }
        if forall|i: int, m: int|
            0 <= i < n && 0 <= m < s.pins[i].1.len() ==> (#[trigger] pin_said(
                s,
                ends,
                i,
                m,
            )) is None {
            assert forall|m: int| 0 <= m < refs.len() implies (#[trigger] f(m)) is None by {
                assert(f(m) == pin_said(s, ends, n - 1, m));
            }
        }
    }
}

proof fn lemma_page(s: SheetV, v: Seq<Seq<char>>, n: int)
    ensures
        noting(
            v,
            |i: int| check::page_note(s.des, s.des.parts[i], s.parts[i].full),
            n,
            check::page_notes(s, v, n),
        ),
    decreases n,
{
    let f = |i: int| check::page_note(s.des, s.des.parts[i], s.parts[i].full);
    lemma_gathered(v, f, n);
    lemma_page_is(s, v, n, f);
}

proof fn lemma_page_is(
    s: SheetV,
    v: Seq<Seq<char>>,
    n: int,
    f: spec_fn(int) -> Option<Seq<char>>,
)
    requires
        f == |i: int| check::page_note(s.des, s.des.parts[i], s.parts[i].full),
    ensures
        check::page_notes(s, v, n) == gathered(v, f, n),
    decreases n,
{
    if n > 0 {
        lemma_page_is(s, v, n - 1, f);
    }
}

proof fn lemma_end(s: SheetV, ends: Seq<Key>, v: Seq<Seq<char>>, n: int)
    ensures
        noting(v, |i: int| check::end_note(s, ends[i]), n, check::end_notes(s, ends, v, n)),
{
    let f = |i: int| check::end_note(s, ends[i]);
    lemma_gathered(v, f, n);
    lemma_end_is(s, ends, v, n, f);
}

proof fn lemma_end_is(
    s: SheetV,
    ends: Seq<Key>,
    v: Seq<Seq<char>>,
    n: int,
    f: spec_fn(int) -> Option<Seq<char>>,
)
    requires
        f == |i: int| check::end_note(s, ends[i]),
    ensures
        check::end_notes(s, ends, v, n) == gathered(v, f, n),
    decreases n,
{
    if n > 0 {
        lemma_end_is(s, ends, v, n - 1, f);
    }
}

proof fn lemma_label(s: SheetV, v: Seq<Seq<char>>, n: int)
    ensures
        noting(v, |i: int| check::label_note(s, s.at[i]), n, check::label_notes(s, v, n)),
{
    let f = |i: int| check::label_note(s, s.at[i]);
    lemma_gathered(v, f, n);
    lemma_label_is(s, v, n, f);
}

proof fn lemma_label_is(
    s: SheetV,
    v: Seq<Seq<char>>,
    n: int,
    f: spec_fn(int) -> Option<Seq<char>>,
)
    requires
        f == |i: int| check::label_note(s, s.at[i]),
    ensures
        check::label_notes(s, v, n) == gathered(v, f, n),
    decreases n,
{
    if n > 0 {
        lemma_label_is(s, v, n - 1, f);
    }
}

proof fn lemma_power(s: SheetV, v: Seq<Seq<char>>, n: int)
    ensures
        noting(v, |i: int| check::power_note(s, s.des.power[i]), n, check::power_notes(s, v, n)),
{
    let f = |i: int| check::power_note(s, s.des.power[i]);
    lemma_gathered(v, f, n);
    lemma_power_is(s, v, n, f);
}

proof fn lemma_power_is(
    s: SheetV,
    v: Seq<Seq<char>>,
    n: int,
    f: spec_fn(int) -> Option<Seq<char>>,
)
    requires
        f == |i: int| check::power_note(s, s.des.power[i]),
    ensures
        check::power_notes(s, v, n) == gathered(v, f, n),
    decreases n,
{
    if n > 0 {
        lemma_power_is(s, v, n - 1, f);
    }
}

proof fn lemma_mark(s: SheetV, v: Seq<Seq<char>>, n: int)
    ensures
        noting(v, |i: int| check::mark_note(s, s.nc[i]), n, check::mark_notes(s, v, n)),
{
    let f = |i: int| check::mark_note(s, s.nc[i]);
    lemma_gathered(v, f, n);
    lemma_mark_is(s, v, n, f);
}

proof fn lemma_mark_is(
    s: SheetV,
    v: Seq<Seq<char>>,
    n: int,
    f: spec_fn(int) -> Option<Seq<char>>,
)
    requires
        f == |i: int| check::mark_note(s, s.nc[i]),
    ensures
        check::mark_notes(s, v, n) == gathered(v, f, n),
    decreases n,
{
    if n > 0 {
        lemma_mark_is(s, v, n - 1, f);
    }
}

proof fn lemma_through(s: SheetV, v: Seq<Seq<char>>, n: int)
    ensures
        noting(v, |i: int| check::through_note(s, s.segs[i]), n, check::through_notes(s, v, n)),
{
    let f = |i: int| check::through_note(s, s.segs[i]);
    lemma_gathered(v, f, n);
    lemma_through_is(s, v, n, f);
}

proof fn lemma_through_is(
    s: SheetV,
    v: Seq<Seq<char>>,
    n: int,
    f: spec_fn(int) -> Option<Seq<char>>,
)
    requires
        f == |i: int| check::through_note(s, s.segs[i]),
    ensures
        check::through_notes(s, v, n) == gathered(v, f, n),
    decreases n,
{
    if n > 0 {
        lemma_through_is(s, v, n - 1, f);
    }
}

proof fn lemma_row(all: Seq<check::PlacedV>, i: int, v: Seq<Seq<char>>, n: int)
    ensures
        said(v, check::row_clashes(all, i, v, n)),
        forall|j: int|
            i < j < n && (#[trigger] check::clash_note(all[i], all[j])) is Some
                ==> check::row_clashes(all, i, v, n).contains(
                check::clash_note(all[i], all[j])->0,
            ),
        (forall|j: int| i < j < n ==> (#[trigger] check::clash_note(all[i], all[j])) is None)
            ==> check::row_clashes(all, i, v, n) == v,
    decreases n - i,
{
    if n > i + 1 {
        lemma_row(all, i, v, n - 1);
        let s = check::row_clashes(all, i, v, n - 1);
        let r = check::row_clashes(all, i, v, n);
        assert(said(s, r));
        lemma_said(v, s, r);
        assert forall|j: int|
            i < j < n && (#[trigger] check::clash_note(all[i], all[j])) is Some implies r.contains(
            check::clash_note(all[i], all[j])->0,
        ) by {
            if j < n - 1 {
                lemma_still(s, r, check::clash_note(all[i], all[j])->0);
            } else {
                assert(r[s.len() as int] == check::clash_note(all[i], all[j])->0);
            }
        }
    }
}

proof fn lemma_clash(all: Seq<check::PlacedV>, v: Seq<Seq<char>>, n: int)
    requires
        0 <= n <= all.len(),
    ensures
        said(v, check::clash_notes(all, v, n)),
        forall|i: int, j: int|
            0 <= i < n && i < j < all.len() && (#[trigger] check::clash_note(all[i], all[j]))
                is Some ==> check::clash_notes(all, v, n).contains(
                check::clash_note(all[i], all[j])->0,
            ),
        (forall|i: int, j: int|
            0 <= i < n && i < j < all.len() ==> (#[trigger] check::clash_note(all[i], all[j]))
                is None) ==> check::clash_notes(all, v, n) == v,
    decreases n,
{
    if n > 0 {
        lemma_clash(all, v, n - 1);
        let s = check::clash_notes(all, v, n - 1);
        let r = check::clash_notes(all, v, n);
        lemma_row(all, n - 1, s, all.len() as int);
        lemma_said(v, s, r);
        assert forall|i: int, j: int|
            0 <= i < n && i < j < all.len() && (#[trigger] check::clash_note(all[i], all[j]))
                is Some implies r.contains(check::clash_note(all[i], all[j])->0) by {
            if i < n - 1 {
                lemma_still(s, r, check::clash_note(all[i], all[j])->0);
            }
        }
    }
}

proof fn lemma_text_row(bs: Seq<readable::BoxedV>, i: int, p: readable::PairsV, n: int)
    ensures
        said(p.notes, readable::row_pairs(bs, i, p, n).notes),
    decreases n - i,
{
    if n > i + 1 {
        lemma_text_row(bs, i, p, n - 1);
        let s = readable::row_pairs(bs, i, p, n - 1);
        let r = readable::row_pairs(bs, i, p, n);
        assert(said(s.notes, r.notes));
        lemma_said(p.notes, s.notes, r.notes);
    }
}

proof fn lemma_text_pairs(bs: Seq<readable::BoxedV>, p: readable::PairsV, n: int)
    ensures
        said(p.notes, readable::all_pairs(bs, p, n).notes),
    decreases n,
{
    if n > 0 {
        lemma_text_pairs(bs, p, n - 1);
        let s = readable::all_pairs(bs, p, n - 1);
        lemma_text_row(bs, n - 1, s, bs.len() as int);
        lemma_said(p.notes, s.notes, readable::all_pairs(bs, p, n).notes);
    }
}

proof fn lemma_text_bodies(s: SheetV, bs: Seq<readable::BoxedV>, v: Seq<Seq<char>>, n: int)
    ensures
        said(v, readable::body_notes(s, bs, v, n)),
    decreases n,
{
    if n > 0 {
        lemma_text_bodies(s, bs, v, n - 1);
        let a = readable::body_notes(s, bs, v, n - 1);
        let b = readable::body_notes(s, bs, v, n);
        assert(said(a, b));
        lemma_said(v, a, b);
    }
}

// ---------------------------------------------------------------- a sheet
/// Where the pins of a sheet stand.
pub open spec fn pins_of(l: Lookup) -> compile::PinsAtV {
    compile::pin_positions(l.st, l.des, l.shelf).1
}

/// A sheet with the symbols of its pins looked up.
pub open spec fn settled(l: Lookup) -> Lookup {
    Lookup { st: compile::pin_positions(l.st, l.des, l.shelf).0, ..l }
}

/// The symbols of a sheet: its parts, then its power symbols.
pub open spec fn symbols_of(l: Lookup) -> Seq<check::PlacedV> {
    settled(l).placed_parts() + settled(l).placed_power(l.des.power.len() as int)
}

/// How many connections wires make at a point.
pub open spec fn wired(des: DesignV, k: Key) -> int {
    wires_meet(des.wires, des.wires.len() as int, k)
}

/// Whether pins stand at a point.
pub open spec fn pins_at(pins: compile::PinsAtV, k: Key) -> bool {
    exists|i: int| 0 <= i < pins.len() && (#[trigger] pins[i]).0 == k
}

/// Whether a label stands at a point.
pub open spec fn labelled(des: DesignV, k: Key) -> bool {
    exists|i: int| 0 <= i < des.labels.len() && compile::key_spec((#[trigger] des.labels[i]).at) == k
}

/// Whether a text begins with another.
pub open spec fn begins(t: Seq<char>, p: Seq<char>) -> bool {
    p.len() <= t.len() && t.take(p.len() as int) == p
}

/// Whether some line begins with a text.
pub open spec fn tells(v: Seq<Seq<char>>, p: Seq<char>) -> bool {
    exists|i: int| 0 <= i < v.len() && begins(#[trigger] v[i], p)
}

proof fn lemma_tells(v: Seq<Seq<char>>, p: Seq<char>, rest: Seq<char>)
    requires
        v.contains(p + rest),
    ensures
        tells(v, p),
{
    let i = choose|i: int| 0 <= i < v.len() && v[i] == p + rest;
    assert((p + rest).take(p.len() as int) =~= p);
    assert(begins(v[i], p));
}

#[verifier::spinoff_prover]
#[verifier::rlimit(40)]
proof fn lemma_points(l: Lookup, k: Key)
    ensures
        ({
            let s = check::sheet_of(l);
            &&& s.on_wire(k) <==> wired(l.des, k) >= 1
            &&& wired(l.des, k) >= 0
            &&& (check::end_count(s.segs, k, s.segs.len() as int) >= 2 || check::on_any(s.segs, k))
                <==> wired(l.des, k) >= 2
            &&& s.label_at(k) <==> labelled(l.des, k)
            &&& s.pin_at(k) <==> pins_at(pins_of(l), k)
            &&& s.nc.contains(k) <==> marked(l.des, k)
        }),
{
    let s = check::sheet_of(l);
    dots::lemma_wire_counts(l.des.wires, k);
    touching::lemma_seek_key(s.at, k, 0);
    touching::lemma_seek_key(s.pins, k, 0);
    lemma_label_there(l, k);
    if pins_at(s.pins, k) {
        let i = choose|i: int| 0 <= i < s.pins.len() && (#[trigger] s.pins[i]).0 == k;
        assert(compile::seek_key(s.pins, k, 0) <= i);
    }
    if s.pin_at(k) {
        assert(s.pins[compile::seek_key(s.pins, k, 0)].0 == k);
    }
    lemma_mark_there(l.des.nc, l.des.nc.len() as int, k);
}

proof fn lemma_label_there(l: Lookup, k: Key)
    ensures
        check::sheet_of(l).label_at(k) <==> labelled(l.des, k),
{
    let at = check::sheet_of(l).at;
    touching::lemma_seek_key(at, k, 0);
    touching::lemma_label_points(l.des.labels, l.des.labels.len() as int);
    if labelled(l.des, k) {
        let i = choose|i: int|
            0 <= i < l.des.labels.len() && compile::key_spec((#[trigger] l.des.labels[i]).at) == k;
        let m = choose|m: int|
            0 <= m < at.len() && (#[trigger] at[m]).0 == compile::key_spec(l.des.labels[i].at);
        assert(compile::seek_key(at, k, 0) <= m);
    }
    if check::sheet_of(l).label_at(k) {
        let m = compile::seek_key(at, k, 0);
        assert(at[m].0 == k);
        assert(touching::last_label(l.des.labels, at[m].1, l.des.labels.len() as int));
        assert(compile::key_spec(l.des.labels[at[m].1].at) == k);
    }
}

#[verifier::spinoff_prover]
#[verifier::rlimit(40)]
proof fn lemma_mark_there(nc: Seq<Pt>, n: int, k: Key)
    requires
        0 <= n <= nc.len(),
    ensures
        check::key_set(nc, n).contains(k) <==> exists|i: int|
            0 <= i < n && compile::key_spec(#[trigger] nc[i]) == k,
    decreases n,
{
    if n > 0 {
        lemma_mark_there(nc, n - 1, k);
        let s = check::key_set(nc, n - 1);
        let e = compile::key_spec(nc[n - 1]);
        let r = check::key_set(nc, n);
        lemma_spot_within(s, e, 0);
        let at = check::key_spot(s, e, 0);
        if !s.contains(e) {
            assert(r == s.insert(at, e));
            assert(r[at] == e);
            if s.contains(k) {
                let j = choose|j: int| 0 <= j < s.len() && s[j] == k;
                assert(r[if j < at { j } else { j + 1 }] == k);
            }
            if r.contains(k) && k != e {
                let j = choose|j: int| 0 <= j < r.len() && r[j] == k;
                assert(s[if j < at { j } else { j - 1 }] == k);
            }
        }
        if exists|i: int| 0 <= i < n - 1 && compile::key_spec(#[trigger] nc[i]) == k {
            let i = choose|i: int| 0 <= i < n - 1 && compile::key_spec(#[trigger] nc[i]) == k;
            assert(compile::key_spec(nc[i]) == k);
        }
        if exists|i: int| 0 <= i < n && compile::key_spec(#[trigger] nc[i]) == k {
            let i = choose|i: int| 0 <= i < n && compile::key_spec(#[trigger] nc[i]) == k;
            if i < n - 1 {
                assert(compile::key_spec(nc[i]) == k);
            }
        }
        if k == e {
            assert(compile::key_spec(nc[n - 1]) == k);
        }
    }
}

proof fn lemma_spot_within(v: Seq<Key>, k: Key, i: int)
    requires
        0 <= i <= v.len(),
    ensures
        i <= check::key_spot(v, k, i) <= v.len(),
    decreases v.len() - i,
{
    if i < v.len() && check::key_lt(v[i], k) {
        lemma_spot_within(v, k, i + 1);
    }
}

// ---------------------------------------------------------------- the order of the notes
spec fn stage1(l: Lookup) -> Seq<Seq<char>> {
    check::page_notes(check::sheet_of(l), Seq::empty(), l.des.parts.len() as int)
}

spec fn ends_of(l: Lookup) -> Seq<Key> {
    check::wire_ends(l.des.wires, l.des.wires.len() as int)
}

spec fn stage2(l: Lookup) -> Seq<Seq<char>> {
    let s = check::sheet_of(l);
    check::pin_notes(s, ends_of(l), stage1(l), s.pins.len() as int)
}

spec fn stage3(l: Lookup) -> Seq<Seq<char>> {
    check::end_notes(check::sheet_of(l), ends_of(l), stage2(l), ends_of(l).len() as int)
}

spec fn stage4(l: Lookup) -> Seq<Seq<char>> {
    let s = check::sheet_of(l);
    check::label_notes(s, stage3(l), s.at.len() as int)
}

spec fn stage5(l: Lookup) -> Seq<Seq<char>> {
    check::power_notes(check::sheet_of(l), stage4(l), l.des.power.len() as int)
}

spec fn stage6(l: Lookup) -> Seq<Seq<char>> {
    let s = check::sheet_of(l);
    check::mark_notes(s, stage5(l), s.nc.len() as int)
}

spec fn stage7(l: Lookup) -> Seq<Seq<char>> {
    check::clash_notes(symbols_of(l), stage6(l), symbols_of(l).len() as int)
}

spec fn stage8(l: Lookup) -> Seq<Seq<char>> {
    let s = check::sheet_of(l);
    check::through_notes(s, stage7(l), s.segs.len() as int)
}

#[verifier::spinoff_prover]
#[verifier::rlimit(40)]
proof fn lemma_stages(l: Lookup)
    ensures
        check::issues_of(l) == readable::text_issues(check::sheet_of(l), l.st.texts, stage8(l)),
        said(stage1(l), check::issues_of(l)),
        said(stage2(l), check::issues_of(l)),
        said(stage3(l), check::issues_of(l)),
        said(stage4(l), check::issues_of(l)),
        said(stage5(l), check::issues_of(l)),
        said(stage6(l), check::issues_of(l)),
        said(stage7(l), check::issues_of(l)),
        said(stage8(l), check::issues_of(l)),
{
    let s = check::sheet_of(l);
    let r = check::issues_of(l);
    lemma_pins(s, ends_of(l), stage1(l), s.pins.len() as int);
    lemma_end(s, ends_of(l), stage2(l), ends_of(l).len() as int);
    lemma_label(s, stage3(l), s.at.len() as int);
    lemma_power(s, stage4(l), l.des.power.len() as int);
    lemma_mark(s, stage5(l), s.nc.len() as int);
    lemma_clash(symbols_of(l), stage6(l), symbols_of(l).len() as int);
    lemma_through(s, stage7(l), s.segs.len() as int);
    let bs = readable::text_boxes(l.st.texts, s.des.labels, s.des.texts);
    let n = bs.len() as int;
    let w = readable::body_notes(s, bs, stage8(l), n);
    lemma_text_bodies(s, bs, stage8(l), n);
    lemma_text_pairs(bs, readable::PairsV { notes: w, seen: Seq::empty() }, n);
    lemma_said(stage8(l), w, r);
    lemma_said(stage7(l), stage8(l), r);
    lemma_said(stage6(l), stage7(l), r);
    lemma_said(stage5(l), stage6(l), r);
    lemma_said(stage4(l), stage5(l), r);
    lemma_said(stage3(l), stage4(l), r);
    lemma_said(stage2(l), stage3(l), r);
    lemma_said(stage1(l), stage2(l), r);
}

// ---------------------------------------------------------------- faults are named
/// A pin of a part that is not meant to stay unconnected.
pub open spec fn wants_a_wire(r: compile::PinRefV) -> bool {
    !text::starts(r.owner, "#"@) && r.etype != "no_connect"@
}

/// A pin of a real part that meets no wire, no label, no other pin and no mark is named as not
/// connected, whatever else is on the sheet.
#[verifier::spinoff_prover]
#[verifier::rlimit(40)]
pub proof fn a_loose_pin_is_named(l: Lookup, i: int, m: int)
    requires
        0 <= i < pins_of(l).len(),
        0 <= m < pins_of(l)[i].1.len(),
        wants_a_wire(pins_of(l)[i].1[m]),
        !marked(l.des, pins_of(l)[i].0),
        !labelled(l.des, pins_of(l)[i].0),
        dots::connections(l.des, pins_of(l), pins_of(l)[i].0) == 1,
    ensures
        ({
            let (k, refs) = pins_of(l)[i];
            tells(
                check::issues_of(l),
                "pin "@ + refs[m].owner + "."@ + refs[m].number + " ("@ + refs[m].etype + ") at "@
                    + check::point_text(k.point()) + " is not connected to anything"@,
            )
        }),
{
    let s = check::sheet_of(l);
    let (k, refs) = s.pins[i];
    let r = refs[m];
    lemma_points(l, k);
    dots::lemma_pins_least(s.pins, s.pins.len() as int, i, k);
    let ends = ends_of(l);
    lemma_pins(s, ends, stage1(l), s.pins.len() as int);
    let near = check::nearest_of(k, ends, ends.len() as int).best;
    assert(pin_said(s, ends, i, m) == Some(check::loose_note(r, k, near)));
    lemma_stages(l);
    let t = check::loose_note(r, k, near);
    lemma_still(stage2(l), check::issues_of(l), t);
    let p = "pin "@ + r.owner + "."@ + r.number + " ("@ + r.etype + ") at "@ + check::point_text(
        k.point(),
    ) + " is not connected to anything"@;
    assert(t =~= p + check::reach_hint(r, near));
    lemma_tells(check::issues_of(l), p, check::reach_hint(r, near));
}

/// So a sheet without issues has no such pin: each pin of a real part is marked or meets a wire, a
/// label or another pin.
pub proof fn a_sheet_without_issues_has_no_loose_pin(l: Lookup, i: int, m: int)
    requires
        check::issues_of(l).len() == 0,
        0 <= i < pins_of(l).len(),
        0 <= m < pins_of(l)[i].1.len(),
        wants_a_wire(pins_of(l)[i].1[m]),
    ensures
        marked(l.des, pins_of(l)[i].0) || labelled(l.des, pins_of(l)[i].0) || dots::connections(
            l.des,
            pins_of(l),
            pins_of(l)[i].0,
        ) > 1,
{
    let k = pins_of(l)[i].0;
    dots::lemma_pins_least(pins_of(l), pins_of(l).len() as int, i, k);
    dots::lemma_wires_least(l.des.wires, l.des.wires.len() as int, 0, k);
    if !marked(l.des, k) && !labelled(l.des, k) && dots::connections(l.des, pins_of(l), k) == 1 {
        a_loose_pin_is_named(l, i, m);
    }
}

/// A pin of a real part that is marked as unconnected and meets a wire or a label, or shares its
/// point, is named.
pub proof fn a_marked_pin_with_a_connection_is_named(l: Lookup, i: int, m: int)
    requires
        0 <= i < pins_of(l).len(),
        0 <= m < pins_of(l)[i].1.len(),
        wants_a_wire(pins_of(l)[i].1[m]),
        marked(l.des, pins_of(l)[i].0),
        labelled(l.des, pins_of(l)[i].0) || wired(l.des, pins_of(l)[i].0) > 0
            || pins_of(l)[i].1.len() > 1,
    ensures
        ({
            let (k, refs) = pins_of(l)[i];
            check::issues_of(l).contains(
                refs[m].owner + "."@ + refs[m].number + " at "@ + check::point_text(k.point())
                    + " has both a no-connect flag and a connection"@,
            )
        }),
{
    let s = check::sheet_of(l);
    let (k, refs) = s.pins[i];
    lemma_points(l, k);
    let ends = ends_of(l);
    lemma_pins(s, ends, stage1(l), s.pins.len() as int);
    assert(pin_said(s, ends, i, m) == Some(check::both_note(refs[m], k)));
    lemma_stages(l);
    lemma_still(stage2(l), check::issues_of(l), check::both_note(refs[m], k));
}

proof fn lemma_wire_ends(ws: Seq<Seq<Pt>>, n: int)
    requires
        0 <= n <= ws.len(),
    ensures
        check::wire_ends(ws, n).len() == 2 * n,
        forall|i: int|
            0 <= i < n ==> check::wire_ends(ws, n)[2 * i] == compile::key_spec((#[trigger] ws[i])[0])
                && check::wire_ends(ws, n)[2 * i + 1] == compile::key_spec(ws[i].last()),
    decreases n,
{
    if n > 0 {
        lemma_wire_ends(ws, n - 1);
    }
}

/// An end of a wire at which there is no pin, no label, no mark and no other wire is named as
/// dangling.
#[verifier::spinoff_prover]
#[verifier::rlimit(40)]
pub proof fn a_wire_end_to_nothing_is_named(l: Lookup, i: int, k: Key)
    requires
        0 <= i < l.des.wires.len(),
        k == compile::key_spec(l.des.wires[i][0]) || k == compile::key_spec(l.des.wires[i].last()),
        !pins_at(pins_of(l), k),
        !labelled(l.des, k),
        !marked(l.des, k),
        wired(l.des, k) <= 1,
    ensures
        tells(
            check::issues_of(l),
            "wire end at "@ + check::point_text(k.point())
                + " is dangling (connects to nothing)"@,
        ),
{
    let s = check::sheet_of(l);
    let ends = ends_of(l);
    lemma_points(l, k);
    lemma_wire_ends(l.des.wires, l.des.wires.len() as int);
    let j = if k == compile::key_spec(l.des.wires[i][0]) { 2 * i } else { 2 * i + 1 };
    assert(l.des.wires[i] == l.des.wires[i]);
    assert(ends[j] == k);
    lemma_end(s, ends, stage2(l), ends.len() as int);
    let f = |i: int| check::end_note(s, ends[i]);
    assert(f(j) is Some);
    let t = f(j)->0;
    lemma_stages(l);
    lemma_still(stage3(l), check::issues_of(l), t);
    let keys = netlist::pin_keys(s.pins);
    let hint = check::pin_hint(s, check::nearest_of(k, keys, keys.len() as int).best);
    let p = "wire end at "@ + check::point_text(k.point()) + " is dangling (connects to nothing)"@;
    assert(t =~= p + hint);
    lemma_tells(check::issues_of(l), p, hint);
}

/// A label that counts at its point, where there is no pin and no wire, is named as floating.
pub proof fn a_label_on_nothing_is_named(l: Lookup, i: int)
    requires
        label_counts(l.des.labels, i),
        !pins_at(pins_of(l), compile::key_spec(l.des.labels[i].at)),
        wired(l.des, compile::key_spec(l.des.labels[i].at)) == 0,
    ensures
        check::issues_of(l).contains(
            "label '"@ + l.des.labels[i].text + "' at "@ + check::point_text(
                compile::key_spec(l.des.labels[i].at).point(),
            ) + " is floating - it must sit exactly on a wire end or pin"@,
        ),
{
    let s = check::sheet_of(l);
    let k = compile::key_spec(l.des.labels[i].at);
    lemma_points(l, k);
    touching::lemma_label_points(l.des.labels, l.des.labels.len() as int);
    assert(touching::last_label(l.des.labels, i, l.des.labels.len() as int));
    assert(s.at.contains((k, i)));
    let m = choose|m: int| 0 <= m < s.at.len() && s.at[m] == (k, i);
    lemma_label(s, stage3(l), s.at.len() as int);
    let f = |i: int| check::label_note(s, s.at[i]);
    assert(f(m) is Some);
    lemma_stages(l);
    lemma_still(stage4(l), check::issues_of(l), f(m)->0);
}

/// A power symbol at whose point there is no wire, no label and no second pin is named.
pub proof fn a_loose_power_symbol_is_named(l: Lookup, i: int)
    requires
        0 <= i < l.des.power.len(),
        !labelled(l.des, compile::key_spec(l.des.power[i].at)),
        dots::connections(l.des, pins_of(l), compile::key_spec(l.des.power[i].at)) <= 1,
        wired(l.des, compile::key_spec(l.des.power[i].at)) == 0,
    ensures
        check::issues_of(l).contains(
            "power symbol "@ + l.des.power[i].net + " at "@ + check::point_text(
                compile::key_spec(l.des.power[i].at).point(),
            ) + " is not connected to anything"@,
        ),
{
    let s = check::sheet_of(l);
    let k = compile::key_spec(l.des.power[i].at);
    lemma_points(l, k);
    touching::lemma_seek_key(s.pins, k, 0);
    let j = compile::seek_key(s.pins, k, 0);
    dots::lemma_pins_least(s.pins, s.pins.len() as int, j, k);
    lemma_power(s, stage4(l), l.des.power.len() as int);
    let f = |i: int| check::power_note(s, s.des.power[i]);
    assert(f(i) is Some);
    lemma_stages(l);
    lemma_still(stage5(l), check::issues_of(l), f(i)->0);
}

/// A mark at which no pin stands is named.
pub proof fn a_mark_off_pins_is_named(l: Lookup, i: int)
    requires
        0 <= i < l.des.nc.len(),
        !pins_at(pins_of(l), compile::key_spec(l.des.nc[i])),
    ensures
        check::issues_of(l).contains(
            "no-connect marker at "@ + check::point_text(compile::key_spec(l.des.nc[i]).point())
                + " is not on a pin"@,
        ),
{
    let s = check::sheet_of(l);
    let k = compile::key_spec(l.des.nc[i]);
    lemma_points(l, k);
    assert(marked(l.des, k));
    let m = choose|m: int| 0 <= m < s.nc.len() && s.nc[m] == k;
    lemma_mark(s, stage5(l), s.nc.len() as int);
    let f = |i: int| check::mark_note(s, s.nc[i]);
    assert(f(m) is Some);
    lemma_stages(l);
    lemma_still(stage6(l), check::issues_of(l), f(m)->0);
}

/// Whether a box leaves the part of the page that may be drawn on: ten millimetres from each edge,
/// and twenty-five from the lower.
pub open spec fn off_page(des: DesignV, b: BBox) -> bool {
    let (w, h) = check::paper_size(des.paper);
    b.x0 < 1_000_000 || b.y0 < 1_000_000 || w < b.x1 + 1_000_000 || h < b.y1 + 2_500_000
}

/// A part that leaves the page is named.
#[verifier::spinoff_prover]
#[verifier::rlimit(40)]
pub proof fn a_part_off_the_page_is_named(l: Lookup, i: int)
    requires
        0 <= i < l.des.parts.len(),
        off_page(l.des, settled(l).part_box(l.des.parts[i], false)),
    ensures
        tells(
            check::issues_of(l),
            l.des.parts[i].id + " at "@ + check::point_text(l.des.parts[i].at)
                + " extends outside the drawable page area"@,
        ),
{
    let s = check::sheet_of(l);
    lemma_page(s, Seq::empty(), l.des.parts.len() as int);
    let f = |i: int| check::page_note(s.des, s.des.parts[i], s.parts[i].full);
    assert(f(i) is Some);
    let t = f(i)->0;
    lemma_stages(l);
    lemma_still(stage1(l), check::issues_of(l), t);
    let (w, h) = check::paper_size(l.des.paper);
    let p = l.des.parts[i].id + " at "@ + check::point_text(l.des.parts[i].at)
        + " extends outside the drawable page area"@;
    reveal_strlit(" extends outside the drawable page area");
    reveal_strlit(" extends outside the drawable page area (keep x in 10..");
    reveal_strlit(" (keep x in 10..");
    let rest = " (keep x in 10.."@ + text::numeral((w - 1_000_000) / 127_000) + ", y in 10.."@
        + text::numeral((h - 2_500_000) / 127_000) + " grid units)"@;
    assert(" extends outside the drawable page area (keep x in 10.."@
        =~= " extends outside the drawable page area"@ + " (keep x in 10.."@);
    assert(t =~= p + rest);
    lemma_tells(check::issues_of(l), p, rest);
}

/// Whether two boxes share more than six tenths of a millimetre both ways.
pub open spec fn share(a: BBox, b: BBox) -> bool {
    &&& b.x0 + 60_000 < a.x1
    &&& a.x0 + 60_000 < b.x1
    &&& b.y0 + 60_000 < a.y1
    &&& a.y0 + 60_000 < b.y1
}

/// Whether two symbols overlap: their bodies, or the body of one and the box with pins of the
/// other.
pub open spec fn overlap(a: check::PlacedV, b: check::PlacedV) -> bool {
    share(a.body, b.body) || share(a.body, b.full) || share(a.full, b.body)
}

proof fn lemma_overlap(a: check::PlacedV, b: check::PlacedV)
    ensures
        check::clash_note(a, b) is Some <==> overlap(a, b),
        check::clash_note(a, b) is Some ==> check::clash_note(a, b)->0 == a.id + check::span_text(
            a.full,
        ) + " and "@ + b.id + check::span_text(b.full) + " overlap - move them apart"@,
{
}

/// Two symbols that overlap are named.
pub proof fn symbols_that_overlap_are_named(l: Lookup, i: int, j: int)
    requires
        0 <= i < j < symbols_of(l).len(),
        overlap(symbols_of(l)[i], symbols_of(l)[j]),
    ensures
        check::issues_of(l).contains(
            symbols_of(l)[i].id + check::span_text(symbols_of(l)[i].full) + " and "@
                + symbols_of(l)[j].id + check::span_text(symbols_of(l)[j].full)
                + " overlap - move them apart"@,
        ),
{
    let all = symbols_of(l);
    lemma_overlap(all[i], all[j]);
    lemma_clash(all, stage6(l), all.len() as int);
    lemma_stages(l);
    lemma_still(stage7(l), check::issues_of(l), check::clash_note(all[i], all[j])->0);
}

/// Whether a stretch of wire runs through a box, more than a millimetre inside it.
pub open spec fn cuts(a: Key, b: Key, r: BBox) -> bool {
    let (x0, y0, x1, y1) = (r.x0 + 100_000, r.y0 + 100_000, r.x1 - 100_000, r.y1 - 100_000);
    let (ax, ay, bx, by) = (1000 * a.0, 1000 * a.1, 1000 * b.0, 1000 * b.1);
    &&& x0 < x1
    &&& y0 < y1
    &&& if ax == bx {
        x0 < ax < x1 && (y0 < ay || y0 < by) && (ay < y1 || by < y1)
    } else if ay == by {
        y0 < ay < y1 && (x0 < ax || x0 < bx) && (ax < x1 || bx < x1)
    } else {
        check::crossing(a, b, check::scaled(r, 1), 1, 100_000)
    }
}

proof fn lemma_cuts(a: Key, b: Key, r: BBox)
    ensures
        check::crossing(a, b, check::scaled(r, 1), 1, 100_000) == cuts(a, b, r),
{
    let f = 1000 * 1int;
    assert(a.0 * f == 1000 * a.0 && a.1 * f == 1000 * a.1 && b.0 * f == 1000 * b.0 && b.1 * f
        == 1000 * b.1);
    let r1 = check::scaled(r, 1);
    assert(r1.x0 == r.x0 && r1.y0 == r.y0 && r1.x1 == r.x1 && r1.y1 == r.y1);
}

proof fn lemma_hit(parts: Seq<check::PlacedV>, e: (Key, Key), i: int)
    requires
        0 <= i <= parts.len(),
    ensures
        i <= check::body_hit(parts, e, i) <= parts.len(),
        check::body_hit(parts, e, i) < parts.len() ==> cuts(
            e.0,
            e.1,
            parts[check::body_hit(parts, e, i)].body,
        ),
        forall|j: int|
            i <= j < check::body_hit(parts, e, i) ==> !cuts(e.0, e.1, (#[trigger] parts[j]).body),
    decreases parts.len() - i,
{
    if i < parts.len() {
        lemma_cuts(e.0, e.1, parts[i].body);
        if !cuts(e.0, e.1, parts[i].body) {
            lemma_hit(parts, e, i + 1);
        }
    }
}

/// A stretch of wire that runs through the body of a part is named.
pub proof fn a_wire_through_a_body_is_named(l: Lookup, a: Key, b: Key, i: int)
    requires
        runs(l.des.wires, a, b),
        0 <= i < l.des.parts.len(),
        cuts(a, b, settled(l).part_box(l.des.parts[i], true)),
    ensures
        tells(
            check::issues_of(l),
            "wire "@ + check::point_text(a.point()) + "-"@ + check::point_text(b.point())
                + " passes through the body of "@,
        ),
{
    let s = check::sheet_of(l);
    let m = lemma_seg_of(l, a, b);
    lemma_hit(s.parts, (a, b), 0);
    assert(s.parts[i].body == settled(l).part_box(l.des.parts[i], true));
    assert(check::body_hit(s.parts, (a, b), 0) < s.parts.len());
    lemma_through_named(l, m);
}

proof fn lemma_seg_of(l: Lookup, a: Key, b: Key) -> (m: int)
    requires
        runs(l.des.wires, a, b),
    ensures
        0 <= m < check::sheet_of(l).segs.len(),
        check::sheet_of(l).segs[m] == (a, b),
{
    let segs = check::sheet_of(l).segs;
    touching::lemma_all_keys(l.des.wires, l.des.wires.len() as int);
    let (w, j) = choose|w: int, j: int| touching::stretch(l.des.wires, w, j, a, b);
    assert(segs.contains((a, b)));
    choose|m: int| 0 <= m < segs.len() && segs[m] == (a, b)
}

#[verifier::spinoff_prover]
#[verifier::rlimit(40)]
proof fn lemma_through_named(l: Lookup, m: int)
    requires
        0 <= m < check::sheet_of(l).segs.len(),
        check::body_hit(check::sheet_of(l).parts, check::sheet_of(l).segs[m], 0) < check::sheet_of(
            l,
        ).parts.len(),
    ensures
        ({
            let (a, b) = check::sheet_of(l).segs[m];
            tells(
                check::issues_of(l),
                "wire "@ + check::point_text(a.point()) + "-"@ + check::point_text(b.point())
                    + " passes through the body of "@,
            )
        }),
{
    let s = check::sheet_of(l);
    let (a, b) = s.segs[m];
    lemma_through(s, stage7(l), s.segs.len() as int);
    let f = |i: int| check::through_note(s, s.segs[i]);
    assert(f(m) is Some);
    let t = f(m)->0;
    lemma_stages(l);
    lemma_still(stage8(l), check::issues_of(l), t);
    let h = s.parts[check::body_hit(s.parts, (a, b), 0)];
    let p = "wire "@ + check::point_text(a.point()) + "-"@ + check::point_text(b.point())
        + " passes through the body of "@;
    let rest = h.id + " (body x "@ + check::grid_text(h.body.x0 as int) + ".."@ + check::grid_text(
        h.body.x1 as int,
    ) + ", y "@ + check::grid_text(h.body.y0 as int) + ".."@ + check::grid_text(h.body.y1 as int)
        + ")"@;
    lemma_glue(
        p,
        h.id,
        " (body x "@,
        check::grid_text(h.body.x0 as int),
        ".."@,
        check::grid_text(h.body.x1 as int),
        ", y "@,
        check::grid_text(h.body.y0 as int),
        ".."@,
        check::grid_text(h.body.y1 as int),
        ")"@,
    );
    assert(t == p + rest);
    lemma_tells(check::issues_of(l), p, rest);
}

/// Texts may be put together from either side.
proof fn lemma_glue(
    p: Seq<char>,
    a: Seq<char>,
    b: Seq<char>,
    c: Seq<char>,
    d: Seq<char>,
    e: Seq<char>,
    f: Seq<char>,
    g: Seq<char>,
    h: Seq<char>,
    i: Seq<char>,
    j: Seq<char>,
)
    ensures
        p + a + b + c + d + e + f + g + h + i + j == p + (a + b + c + d + e + f + g + h + i + j),
{
    assert(p + a + b =~= p + (a + b));
    assert(p + (a + b) + c =~= p + (a + b + c));
    assert(p + (a + b + c) + d =~= p + (a + b + c + d));
    assert(p + (a + b + c + d) + e =~= p + (a + b + c + d + e));
    assert(p + (a + b + c + d + e) + f =~= p + (a + b + c + d + e + f));
    assert(p + (a + b + c + d + e + f) + g =~= p + (a + b + c + d + e + f + g));
    assert(p + (a + b + c + d + e + f + g) + h =~= p + (a + b + c + d + e + f + g + h));
    assert(p + (a + b + c + d + e + f + g + h) + i =~= p + (a + b + c + d + e + f + g + h + i));
    assert(p + (a + b + c + d + e + f + g + h + i) + j =~= p + (a + b + c + d + e + f + g + h + i
        + j));
}

// ---------------------------------------------------------------- texts
/// The texts of a sheet: names and values of its symbols, its labels and its notes.
pub open spec fn texts_of(l: Lookup) -> Seq<readable::BoxedV> {
    readable::text_boxes(l.st.texts, l.des.labels, l.des.texts)
}

/// Whether two areas share more than twice a margin both ways.
pub open spec fn areas_share(a: check::AreaV, b: check::AreaV, margin: int) -> bool {
    &&& b.x0 + 2 * margin < a.x1
    &&& a.x0 + 2 * margin < b.x1
    &&& b.y0 + 2 * margin < a.y1
    &&& a.y0 + 2 * margin < b.y1
}

/// Whether texts of two owners overlap.
pub open spec fn texts_overlap(a: readable::BoxedV, b: readable::BoxedV) -> bool {
    a.owner != b.owner && areas_share(a.area, b.area, 30_000 * readable::FINE)
}

/// Whether a text lies on the body of a part other than its own.
pub open spec fn on_body(a: readable::BoxedV, p: check::PlacedV) -> bool {
    p.id != a.owner && areas_share(
        a.area,
        check::scaled(p.body, readable::FINE as int),
        25_000 * readable::FINE,
    )
}

/// Each pair of descriptions that was noted has its note.
spec fn pairs_noted(p: readable::PairsV) -> bool {
    forall|i: int|
        0 <= i < p.seen.len() ==> tells_pair(
            p.notes,
            (#[trigger] p.seen[i]).0,
            p.seen[i].1,
        )
}

/// Whether a line says that texts with two descriptions overlap.
pub open spec fn tells_pair(v: Seq<Seq<char>>, a: Seq<char>, b: Seq<char>) -> bool {
    exists|p: Pt, q: Pt|
        v.contains(#[trigger] pair_text(a, p, b, q))
}

pub open spec fn pair_text(a: Seq<char>, p: Pt, b: Seq<char>, q: Pt) -> Seq<char> {
    a + " at "@ + check::point_text(p) + " overlaps "@ + b + " at "@ + check::point_text(q)
        + " - texts must not overlap"@
}

proof fn lemma_pair_still(v: Seq<Seq<char>>, w: Seq<Seq<char>>, a: Seq<char>, b: Seq<char>)
    requires
        said(v, w),
        tells_pair(v, a, b),
    ensures
        tells_pair(w, a, b),
{
    let (p, q) = choose|p: Pt, q: Pt| v.contains(#[trigger] pair_text(a, p, b, q));
    lemma_still(v, w, pair_text(a, p, b, q));
}

proof fn lemma_pair_step(p: readable::PairsV, a: readable::BoxedV, b: readable::BoxedV)
    requires
        pairs_noted(p),
    ensures
        pairs_noted(readable::pair_step(p, a, b)),
        said(p.notes, readable::pair_step(p, a, b).notes),
        texts_overlap(a, b) ==> tells_pair(readable::pair_step(p, a, b).notes, a.desc, b.desc),
        !texts_overlap(a, b) ==> readable::pair_step(p, a, b) == p,
{
    let r = readable::pair_step(p, a, b);
    assert(check::overlapping(a.area, b.area, 30_000 * readable::FINE) == areas_share(
        a.area,
        b.area,
        30_000 * readable::FINE,
    ));
    if texts_overlap(a, b) {
        if p.seen.contains((a.desc, b.desc)) {
            let i = choose|i: int| 0 <= i < p.seen.len() && p.seen[i] == (a.desc, b.desc);
            assert(tells_pair(p.notes, p.seen[i].0, p.seen[i].1));
        } else {
            assert(said(p.notes, r.notes));
            assert(r.notes[p.notes.len() as int] == pair_text(a.desc, a.at, b.desc, b.at));
            assert(r.notes.contains(pair_text(a.desc, a.at, b.desc, b.at)));
            assert forall|i: int| 0 <= i < r.seen.len() implies tells_pair(
                r.notes,
                (#[trigger] r.seen[i]).0,
                r.seen[i].1,
            ) by {
                if i < p.seen.len() {
                    assert(r.seen[i] == p.seen[i]);
                    lemma_pair_still(p.notes, r.notes, p.seen[i].0, p.seen[i].1);
                }
            }
        }
    }
}

proof fn lemma_text_row_says(bs: Seq<readable::BoxedV>, i: int, p: readable::PairsV, n: int)
    requires
        pairs_noted(p),
    ensures
        pairs_noted(readable::row_pairs(bs, i, p, n)),
        said(p.notes, readable::row_pairs(bs, i, p, n).notes),
        forall|j: int|
            i < j < n && texts_overlap(bs[i], #[trigger] bs[j]) ==> tells_pair(
                readable::row_pairs(bs, i, p, n).notes,
                bs[i].desc,
                bs[j].desc,
            ),
        (forall|j: int| i < j < n ==> !texts_overlap(bs[i], #[trigger] bs[j]))
            ==> readable::row_pairs(bs, i, p, n) == p,
    decreases n - i,
{
    if n > i + 1 {
        lemma_text_row_says(bs, i, p, n - 1);
        let s = readable::row_pairs(bs, i, p, n - 1);
        let r = readable::row_pairs(bs, i, p, n);
        lemma_pair_step(s, bs[i], bs[n - 1]);
        lemma_said(p.notes, s.notes, r.notes);
        assert forall|j: int| i < j < n && texts_overlap(bs[i], #[trigger] bs[j]) implies tells_pair(
            r.notes,
            bs[i].desc,
            bs[j].desc,
        ) by {
            if j < n - 1 {
                lemma_pair_still(s.notes, r.notes, bs[i].desc, bs[j].desc);
            }
        }
    }
}

proof fn lemma_text_pairs_say(bs: Seq<readable::BoxedV>, p: readable::PairsV, n: int)
    requires
        pairs_noted(p),
        0 <= n <= bs.len(),
    ensures
        pairs_noted(readable::all_pairs(bs, p, n)),
        said(p.notes, readable::all_pairs(bs, p, n).notes),
        forall|i: int, j: int|
            0 <= i < n && i < j < bs.len() && texts_overlap(#[trigger] bs[i], #[trigger] bs[j])
                ==> tells_pair(readable::all_pairs(bs, p, n).notes, bs[i].desc, bs[j].desc),
        (forall|i: int, j: int|
            0 <= i < n && i < j < bs.len() ==> !texts_overlap(#[trigger] bs[i], #[trigger] bs[j]))
            ==> readable::all_pairs(bs, p, n) == p,
    decreases n,
{
    if n > 0 {
        lemma_text_pairs_say(bs, p, n - 1);
        let s = readable::all_pairs(bs, p, n - 1);
        let r = readable::all_pairs(bs, p, n);
        lemma_text_row_says(bs, n - 1, s, bs.len() as int);
        lemma_said(p.notes, s.notes, r.notes);
        assert forall|i: int, j: int|
            0 <= i < n && i < j < bs.len() && texts_overlap(
                #[trigger] bs[i],
                #[trigger] bs[j],
            ) implies tells_pair(r.notes, bs[i].desc, bs[j].desc) by {
            if i < n - 1 {
                lemma_pair_still(s.notes, r.notes, bs[i].desc, bs[j].desc);
            }
        }
    }
}

/// Two texts of different owners that overlap are named.
pub proof fn texts_that_overlap_are_named(l: Lookup, i: int, j: int)
    requires
        0 <= i < j < texts_of(l).len(),
        texts_overlap(texts_of(l)[i], texts_of(l)[j]),
    ensures
        tells_pair(check::issues_of(l), texts_of(l)[i].desc, texts_of(l)[j].desc),
{
    let s = check::sheet_of(l);
    let bs = texts_of(l);
    let n = bs.len() as int;
    let w = readable::body_notes(s, bs, stage8(l), n);
    lemma_stages(l);
    lemma_text_pairs_say(bs, readable::PairsV { notes: w, seen: Seq::empty() }, n);
}

proof fn lemma_area_hit(
    parts: Seq<check::PlacedV>,
    b: readable::BoxedV,
    i: int,
)
    requires
        0 <= i <= parts.len(),
    ensures
        ({
            let r = check::area_hit(
                parts,
                b.area,
                Some(b.owner),
                readable::FINE as int,
                25_000 * readable::FINE,
                i,
            );
            &&& i <= r <= parts.len()
            &&& r < parts.len() ==> on_body(b, parts[r])
            &&& forall|j: int| i <= j < r ==> !on_body(b, #[trigger] parts[j])
        }),
    decreases parts.len() - i,
{
    if i < parts.len() && !on_body(b, parts[i]) {
        lemma_area_hit(parts, b, i + 1);
    }
}

proof fn lemma_body(s: SheetV, bs: Seq<readable::BoxedV>, v: Seq<Seq<char>>, n: int)
    ensures
        noting(
            v,
            |i: int| readable::body_note(s, bs[i]),
            n,
            readable::body_notes(s, bs, v, n),
        ),
{
    let f = |i: int| readable::body_note(s, bs[i]);
    lemma_gathered(v, f, n);
    lemma_body_is(s, bs, v, n, f);
}

proof fn lemma_body_is(
    s: SheetV,
    bs: Seq<readable::BoxedV>,
    v: Seq<Seq<char>>,
    n: int,
    f: spec_fn(int) -> Option<Seq<char>>,
)
    requires
        f == |i: int| readable::body_note(s, bs[i]),
    ensures
        readable::body_notes(s, bs, v, n) == gathered(v, f, n),
    decreases n,
{
    if n > 0 {
        lemma_body_is(s, bs, v, n - 1, f);
    }
}

/// A text on the body of a part that is not its own is named.
pub proof fn a_text_on_a_body_is_named(l: Lookup, i: int, j: int)
    requires
        0 <= i < texts_of(l).len(),
        0 <= j < l.des.parts.len(),
        on_body(texts_of(l)[i], settled(l).placed_part(l.des.parts[j])),
    ensures
        tells(
            check::issues_of(l),
            texts_of(l)[i].desc + " at "@ + check::point_text(texts_of(l)[i].at)
                + " overlaps the body of "@,
        ),
{
    let s = check::sheet_of(l);
    let bs = texts_of(l);
    let n = bs.len() as int;
    let w = readable::body_notes(s, bs, stage8(l), n);
    lemma_stages(l);
    lemma_text_pairs(bs, readable::PairsV { notes: w, seen: Seq::empty() }, n);
    lemma_body(s, bs, stage8(l), n);
    let f = |i: int| readable::body_note(s, bs[i]);
    lemma_area_hit(s.parts, bs[i], 0);
    assert(s.parts[j] == settled(l).placed_part(l.des.parts[j]));
    assert(f(i) is Some);
    lemma_still(w, check::issues_of(l), f(i)->0);
    let h = check::area_hit(
        s.parts,
        bs[i].area,
        Some(bs[i].owner),
        readable::FINE as int,
        25_000 * readable::FINE,
        0,
    );
    let p = bs[i].desc + " at "@ + check::point_text(bs[i].at) + " overlaps the body of "@;
    let rest = s.parts[h].id + " - move/rotate it"@;
    assert(f(i)->0 =~= p + rest);
    lemma_tells(check::issues_of(l), p, rest);
}

// ---------------------------------------------------------------- a sheet without faults
/// A pin is in order: it is of no real part, or it is either marked or connected.
pub open spec fn pin_in_order(l: Lookup, i: int, m: int) -> bool {
    let (k, refs) = pins_of(l)[i];
    wants_a_wire(refs[m]) ==> (marked(l.des, k) <==> !(labelled(l.des, k) || wired(l.des, k) > 0
        || refs.len() > 1))
}

/// An end of a wire is in order: something is there.
pub open spec fn end_in_order(l: Lookup, k: Key) -> bool {
    pins_at(pins_of(l), k) || labelled(l.des, k) || marked(l.des, k) || wired(l.des, k) > 1
}

/// Whether pins stand at a point, and more than one of them.
pub open spec fn crowded(pins: compile::PinsAtV, k: Key) -> bool {
    &&& pins_at(pins, k)
    &&& forall|i: int|
        0 <= i < pins.len() && (#[trigger] pins[i]).0 == k ==> pins[i].1.len() > 1
}

/// Pins, wires, labels, power symbols and marks of a sheet are in order.
pub open spec fn connected_well(l: Lookup) -> bool {
    &&& forall|i: int, m: int|
        0 <= i < pins_of(l).len() && 0 <= m < pins_of(l)[i].1.len() ==> #[trigger] pin_in_order(
            l,
            i,
            m,
        )
    &&& forall|i: int|
        0 <= i < l.des.wires.len() ==> end_in_order(
            l,
            compile::key_spec((#[trigger] l.des.wires[i])[0]),
        ) && end_in_order(l, compile::key_spec(l.des.wires[i].last()))
    &&& forall|i: int| #[trigger]
        label_counts(l.des.labels, i) ==> pins_at(
            pins_of(l),
            compile::key_spec(l.des.labels[i].at),
        ) || wired(l.des, compile::key_spec(l.des.labels[i].at)) > 0
    &&& forall|i: int|
        0 <= i < l.des.power.len() ==> crowded(
            pins_of(l),
            compile::key_spec((#[trigger] l.des.power[i]).at),
        ) || wired(l.des, compile::key_spec(l.des.power[i].at)) > 0 || labelled(
            l.des,
            compile::key_spec(l.des.power[i].at),
        )
    &&& forall|i: int|
        0 <= i < l.des.nc.len() ==> pins_at(pins_of(l), compile::key_spec(#[trigger] l.des.nc[i]))
}

/// Symbols, wires and texts of a sheet keep clear of each other.
pub open spec fn laid_out_well(l: Lookup) -> bool {
    &&& forall|i: int|
        0 <= i < l.des.parts.len() ==> !off_page(
            l.des,
            settled(l).part_box(#[trigger] l.des.parts[i], false),
        )
    &&& forall|i: int, j: int|
        0 <= i < j < symbols_of(l).len() ==> !overlap(
            #[trigger] symbols_of(l)[i],
            #[trigger] symbols_of(l)[j],
        )
    &&& forall|a: Key, b: Key, i: int|
        #[trigger] runs(l.des.wires, a, b) && 0 <= i < l.des.parts.len() ==> !cuts(
            a,
            b,
            settled(l).part_box(#[trigger] l.des.parts[i], true),
        )
    &&& forall|i: int, j: int|
        0 <= i < j < texts_of(l).len() ==> !texts_overlap(
            #[trigger] texts_of(l)[i],
            #[trigger] texts_of(l)[j],
        )
    &&& forall|i: int, j: int|
        0 <= i < texts_of(l).len() && 0 <= j < l.des.parts.len() ==> !on_body(
            #[trigger] texts_of(l)[i],
            settled(l).placed_part(#[trigger] l.des.parts[j]),
        )
}

#[verifier::spinoff_prover]
#[verifier::rlimit(40)]
proof fn lemma_quiet_pins(l: Lookup)
    requires
        connected_well(l),
        stage1(l).len() == 0,
    ensures
        stage6(l).len() == 0,
{
    let s = check::sheet_of(l);
    let ends = ends_of(l);
    lemma_pins(s, ends, stage1(l), s.pins.len() as int);
    assert forall|i: int, m: int| 0 <= i < s.pins.len() && 0 <= m < s.pins[i].1.len() implies (
    #[trigger] pin_said(s, ends, i, m)) is None by {
        assert(pin_in_order(l, i, m));
        lemma_points(l, s.pins[i].0);
    }
    lemma_end(s, ends, stage2(l), ends.len() as int);
    let f3 = |i: int| check::end_note(s, ends[i]);
    lemma_wire_ends(l.des.wires, l.des.wires.len() as int);
    assert forall|i: int| 0 <= i < ends.len() implies (#[trigger] f3(i)) is None by {
        let w = l.des.wires[i / 2];
        assert(ends[2 * (i / 2)] == compile::key_spec(w[0]));
        assert(i == 2 * (i / 2) || i == 2 * (i / 2) + 1);
        assert(end_in_order(l, ends[i]));
        lemma_points(l, ends[i]);
    }
    lemma_quiet_labels(l);
    lemma_power(s, stage4(l), l.des.power.len() as int);
    let f5 = |i: int| check::power_note(s, s.des.power[i]);
    assert forall|i: int| 0 <= i < l.des.power.len() implies (#[trigger] f5(i)) is None by {
        let k = compile::key_spec(l.des.power[i].at);
        lemma_points(l, k);
        touching::lemma_seek_key(s.pins, k, 0);
        if crowded(s.pins, k) {
            let j = choose|j: int| 0 <= j < s.pins.len() && (#[trigger] s.pins[j]).0 == k;
            assert(s.pins[compile::seek_key(s.pins, k, 0)].0 == k);
        }
    }
    lemma_mark(s, stage5(l), s.nc.len() as int);
    let f6 = |i: int| check::mark_note(s, s.nc[i]);
    assert forall|i: int| 0 <= i < s.nc.len() implies (#[trigger] f6(i)) is None by {
        let k = s.nc[i];
        lemma_points(l, k);
        assert(s.nc.contains(k));
        let j = choose|j: int|
            0 <= j < l.des.nc.len() && compile::key_spec(#[trigger] l.des.nc[j]) == k;
        assert(pins_at(pins_of(l), compile::key_spec(l.des.nc[j])));
    }
}

proof fn lemma_quiet_labels(l: Lookup)
    requires
        connected_well(l),
    ensures
        stage4(l) == stage3(l),
{
    let s = check::sheet_of(l);
    lemma_label(s, stage3(l), s.at.len() as int);
    let f4 = |i: int| check::label_note(s, s.at[i]);
    touching::lemma_label_points(l.des.labels, l.des.labels.len() as int);
    assert forall|i: int| 0 <= i < s.at.len() implies (#[trigger] f4(i)) is None by {
        let e = s.at[i];
        assert(touching::last_label(l.des.labels, e.1, l.des.labels.len() as int));
        assert(label_counts(l.des.labels, e.1));
        lemma_points(l, e.0);
    }
}

/// A sheet on which everything is connected and keeps clear has no issues.
#[verifier::spinoff_prover]
#[verifier::rlimit(40)]
pub proof fn a_sheet_without_faults_has_no_issues(l: Lookup)
    requires
        connected_well(l),
        laid_out_well(l),
    ensures
        check::issues_of(l).len() == 0,
{
    let s = check::sheet_of(l);
    let all = symbols_of(l);
    let none: Seq<Seq<char>> = Seq::empty();
    lemma_page(s, none, l.des.parts.len() as int);
    let f1 = |i: int| check::page_note(s.des, s.des.parts[i], s.parts[i].full);
    assert forall|i: int| 0 <= i < l.des.parts.len() implies (#[trigger] f1(i)) is None by {
        assert(!off_page(l.des, settled(l).part_box(l.des.parts[i], false)));
    }
    lemma_quiet_pins(l);
    lemma_clash(all, stage6(l), all.len() as int);
    assert forall|i: int, j: int| 0 <= i < all.len() && i < j < all.len() implies (
    #[trigger] check::clash_note(all[i], all[j])) is None by {
        lemma_overlap(all[i], all[j]);
    }
    lemma_through(s, stage7(l), s.segs.len() as int);
    let f8 = |i: int| check::through_note(s, s.segs[i]);
    assert forall|i: int| 0 <= i < s.segs.len() implies (#[trigger] f8(i)) is None by {
        lemma_segs_run(l, i);
        lemma_hit(s.parts, s.segs[i], 0);
        let h = check::body_hit(s.parts, s.segs[i], 0);
        if h < s.parts.len() {
            assert(s.parts[h].body == settled(l).part_box(l.des.parts[h], true));
        }
    }
    lemma_stages(l);
    let bs = texts_of(l);
    lemma_body(s, bs, stage8(l), bs.len() as int);
    let f9 = |i: int| readable::body_note(s, bs[i]);
    assert forall|i: int| 0 <= i < bs.len() implies (#[trigger] f9(i)) is None by {
        lemma_area_hit(s.parts, bs[i], 0);
        let h = check::area_hit(
            s.parts,
            bs[i].area,
            Some(bs[i].owner),
            readable::FINE as int,
            25_000 * readable::FINE,
            0,
        );
        if h < s.parts.len() {
            assert(s.parts[h] == settled(l).placed_part(l.des.parts[h]));
            assert(on_body(texts_of(l)[i], s.parts[h]));
        }
    }
    let w = readable::body_notes(s, bs, stage8(l), bs.len() as int);
    lemma_text_pairs_say(
        bs,
        readable::PairsV { notes: w, seen: Seq::empty() },
        bs.len() as int,
    );
}

proof fn lemma_segs_run(l: Lookup, i: int)
    requires
        0 <= i < check::sheet_of(l).segs.len(),
    ensures
        runs(l.des.wires, check::sheet_of(l).segs[i].0, check::sheet_of(l).segs[i].1),
{
    let e = check::sheet_of(l).segs[i];
    touching::lemma_all_keys(l.des.wires, l.des.wires.len() as int);
    assert(touching::runs_among(l.des.wires, l.des.wires.len() as int, e.0, e.1));
    let (m, j) = choose|m: int, j: int|
        m < l.des.wires.len() && touching::stretch(l.des.wires, m, j, e.0, e.1);
    assert(touching::stretch(l.des.wires, m, j, e.0, e.1));
}

// ---------------------------------------------------------------- doubts
proof fn lemma_slant_is(
    s: SheetV,
    v: Seq<Seq<char>>,
    n: int,
    f: spec_fn(int) -> Option<Seq<char>>,
)
    requires
        f == |i: int| check::slant_note(s.segs[i]),
    ensures
        check::slant_notes(s, v, n) == gathered(v, f, n),
    decreases n,
{
    if n > 0 {
        lemma_slant_is(s, v, n - 1, f);
    }
}

proof fn lemma_cover_is(
    s: SheetV,
    v: Seq<Seq<char>>,
    n: int,
    f: spec_fn(int) -> Option<Seq<char>>,
)
    requires
        f == |i: int| check::cover_note(s, s.at[i]),
    ensures
        check::cover_notes(s, v, n) == gathered(v, f, n),
    decreases n,
{
    if n > 0 {
        lemma_cover_is(s, v, n - 1, f);
    }
}

proof fn lemma_lone_pin_is(
    nets: Seq<(Seq<char>, Seq<Seq<char>>)>,
    v: Seq<Seq<char>>,
    n: int,
    f: spec_fn(int) -> Option<Seq<char>>,
)
    requires
        f == |i: int| check::lone_pin_note(nets[i]),
    ensures
        check::lone_pin_notes(nets, v, n) == gathered(v, f, n),
    decreases n,
{
    if n > 0 {
        lemma_lone_pin_is(nets, v, n - 1, f);
    }
}

proof fn lemma_lone_label_is(
    labels: Seq<LabelV>,
    v: Seq<Seq<char>>,
    n: int,
    f: spec_fn(int) -> Option<Seq<char>>,
)
    requires
        f == |i: int| check::lone_label_note(labels, i),
    ensures
        check::lone_label_notes(labels, v, n) == gathered(v, f, n),
    decreases n,
{
    if n > 0 {
        lemma_lone_label_is(labels, v, n - 1, f);
    }
}

proof fn lemma_through_texts(
    s: SheetV,
    bs: Seq<readable::BoxedV>,
    v: Seq<Seq<char>>,
    n: int,
)
    ensures
        said(v, readable::through_texts(s, bs, v, n).notes),
    decreases n,
{
    if n > 0 {
        lemma_through_texts(s, bs, v, n - 1);
        let a = readable::through_texts(s, bs, v, n - 1).notes;
        let b = readable::through_texts(s, bs, v, n).notes;
        assert(said(a, b));
        lemma_said(v, a, b);
    }
}

spec fn doubt1(l: Lookup) -> Seq<Seq<char>> {
    let s = check::sheet_of(l);
    check::slant_notes(s, Seq::empty(), s.segs.len() as int)
}

spec fn doubt2(l: Lookup) -> Seq<Seq<char>> {
    let s = check::sheet_of(l);
    check::cover_notes(s, doubt1(l), s.at.len() as int)
}

spec fn doubt3(l: Lookup) -> Seq<Seq<char>> {
    readable::text_warnings(check::sheet_of(l), l.st.texts, doubt2(l)) + check::nets_on(l).warnings
}

spec fn doubt4(l: Lookup) -> Seq<Seq<char>> {
    let nets = check::nets_on(l).nets;
    check::lone_pin_notes(nets, doubt3(l), nets.len() as int)
}

#[verifier::spinoff_prover]
#[verifier::rlimit(40)]
proof fn lemma_doubts(l: Lookup)
    ensures
        said(doubt1(l), check::warnings_of(l)),
        said(doubt2(l), check::warnings_of(l)),
        said(doubt3(l), check::warnings_of(l)),
        said(doubt4(l), check::warnings_of(l)),
        check::warnings_of(l) == check::lone_label_notes(
            l.des.labels,
            doubt4(l),
            l.des.labels.len() as int,
        ),
{
    let s = check::sheet_of(l);
    let r = check::warnings_of(l);
    let f2 = |i: int| check::cover_note(s, s.at[i]);
    lemma_gathered(doubt1(l), f2, s.at.len() as int);
    lemma_cover_is(s, doubt1(l), s.at.len() as int, f2);
    let bs = readable::text_boxes(l.st.texts, s.des.labels, s.des.texts);
    lemma_through_texts(s, bs, doubt2(l), bs.len() as int);
    let t = readable::through_texts(s, bs, doubt2(l), bs.len() as int).notes;
    let w = readable::text_warnings(s, l.st.texts, doubt2(l));
    assert(said(t, w));
    lemma_said(doubt2(l), t, w);
    assert(said(w, doubt3(l)));
    lemma_said(doubt2(l), w, doubt3(l));
    let nets = check::nets_on(l).nets;
    let f4 = |i: int| check::lone_pin_note(nets[i]);
    lemma_gathered(doubt3(l), f4, nets.len() as int);
    lemma_lone_pin_is(nets, doubt3(l), nets.len() as int, f4);
    let f5 = |i: int| check::lone_label_note(l.des.labels, i);
    lemma_gathered(doubt4(l), f5, l.des.labels.len() as int);
    lemma_lone_label_is(l.des.labels, doubt4(l), l.des.labels.len() as int, f5);
    lemma_said(doubt3(l), doubt4(l), r);
    lemma_said(doubt2(l), doubt3(l), r);
    lemma_said(doubt1(l), doubt2(l), r);
}

/// A stretch of wire that is neither level nor upright is warned of.
pub proof fn a_slanted_wire_is_warned_of(l: Lookup, a: Key, b: Key)
    requires
        runs(l.des.wires, a, b),
        a.0 + 1 < b.0 || b.0 + 1 < a.0,
        a.1 + 1 < b.1 || b.1 + 1 < a.1,
    ensures
        check::warnings_of(l).contains(
            "diagonal wire "@ + check::point_text(a.point()) + "-"@ + check::point_text(b.point())
                + ": use only horizontal/vertical segments"@,
        ),
{
    let s = check::sheet_of(l);
    let m = lemma_seg_of(l, a, b);
    let f = |i: int| check::slant_note(s.segs[i]);
    lemma_gathered(Seq::empty(), f, s.segs.len() as int);
    lemma_slant_is(s, Seq::empty(), s.segs.len() as int, f);
    assert(f(m) is Some);
    lemma_doubts(l);
    lemma_still(doubt1(l), check::warnings_of(l), f(m)->0);
}

/// What is said of the nets of a sheet is among its warnings.
pub proof fn doubts_about_nets_are_warned_of(l: Lookup, t: Seq<char>)
    requires
        check::nets_on(l).warnings.contains(t),
    ensures
        check::warnings_of(l).contains(t),
{
    let s = check::sheet_of(l);
    let w = readable::text_warnings(s, l.st.texts, doubt2(l));
    let n = check::nets_on(l).warnings;
    let i = choose|i: int| 0 <= i < n.len() && n[i] == t;
    assert(doubt3(l)[w.len() + i] == t);
    lemma_doubts(l);
    lemma_still(doubt3(l), check::warnings_of(l), t);
}

proof fn lemma_real(v: Seq<Seq<char>>, n: int)
    requires
        0 <= n <= v.len(),
        forall|i: int| 0 <= i < v.len() ==> !text::starts(#[trigger] v[i], "#"@),
    ensures
        check::real_members(v, n) == v.take(n),
    decreases n,
{
    if n > 0 {
        lemma_real(v, n - 1);
        assert(v.take(n) =~= v.take(n - 1).push(v[n - 1]));
    } else {
        assert(v.take(0) =~= Seq::empty());
    }
}

/// A net without a name that has one pin is warned of.
pub proof fn a_net_of_one_pin_is_warned_of(l: Lookup, i: int, t: Seq<char>)
    requires
        0 <= i < check::nets_on(l).nets.len(),
        check::nets_on(l).nets[i].1 == seq![t],
        !text::starts(t, "#"@),
        text::starts(check::nets_on(l).nets[i].0, "N$"@),
    ensures
        check::warnings_of(l).contains("net with single pin "@ + t + " (wire leads nowhere)"@),
{
    let nets = check::nets_on(l).nets;
    let f = |i: int| check::lone_pin_note(nets[i]);
    lemma_gathered(doubt3(l), f, nets.len() as int);
    lemma_lone_pin_is(nets, doubt3(l), nets.len() as int, f);
    let v = nets[i].1;
    lemma_real(v, v.len() as int);
    assert(v.take(v.len() as int) =~= v);
    assert(f(i) is Some);
    lemma_doubts(l);
    lemma_still(doubt4(l), check::warnings_of(l), f(i)->0);
}

/// A local label whose text no other local label has is warned of.
pub proof fn a_label_that_stands_alone_is_warned_of(l: Lookup, i: int)
    requires
        0 <= i < l.des.labels.len(),
        l.des.labels[i].kind == "local"@,
        forall|j: int|
            0 <= j < l.des.labels.len() && j != i ==> !((#[trigger] l.des.labels[j]).kind
                == "local"@ && l.des.labels[j].text == l.des.labels[i].text),
    ensures
        tells(
            check::warnings_of(l),
            "net label '"@ + l.des.labels[i].text + "' appears only once"@,
        ),
{
    let labels = l.des.labels;
    let f = |i: int| check::lone_label_note(labels, i);
    lemma_doubts(l);
    lemma_gathered(doubt4(l), f, labels.len() as int);
    lemma_lone_label_is(labels, doubt4(l), labels.len() as int, f);
    assert(f(i) is Some);
    let all =
        "' appears only once - if it is meant to connect elsewhere, add the matching label; if it is a port/net name for documentation, that's fine"@;
    reveal_strlit("' appears only once");
    reveal_strlit(
        "' appears only once - if it is meant to connect elsewhere, add the matching label; if it is a port/net name for documentation, that's fine",
    );
    let head = "' appears only once"@;
    let rest = all.skip(head.len() as int);
    assert(all =~= head + rest);
    let p = "net label '"@ + labels[i].text + head;
    assert(f(i)->0 =~= p + rest);
    lemma_tells(check::warnings_of(l), p, rest);
}

proof fn lemma_cover_hit(
    parts: Seq<check::PlacedV>,
    a: check::AreaV,
    i: int,
)
    requires
        0 <= i <= parts.len(),
    ensures
        ({
            let r = check::area_hit(parts, a, None, 1, 20_000, i);
            &&& i <= r <= parts.len()
            &&& forall|j: int|
                i <= j < r ==> !areas_share(a, check::scaled((#[trigger] parts[j]).body, 1), 20_000)
        }),
    decreases parts.len() - i,
{
    if i < parts.len() && !areas_share(a, check::scaled(parts[i].body, 1), 20_000) {
        lemma_cover_hit(parts, a, i + 1);
    }
}

/// A label that counts and whose text lies on the body of a part is warned of.
pub proof fn a_label_on_a_body_is_warned_of(l: Lookup, i: int, j: int)
    requires
        label_counts(l.des.labels, i),
        0 <= j < l.des.parts.len(),
        areas_share(
            check::label_area(l.des.labels[i], compile::key_spec(l.des.labels[i].at)),
            check::scaled(settled(l).part_box(l.des.parts[j], true), 1),
            20_000,
        ),
    ensures
        tells(
            check::warnings_of(l),
            "label '"@ + l.des.labels[i].text + "' at "@ + check::point_text(
                compile::key_spec(l.des.labels[i].at).point(),
            ),
        ),
{
    let s = check::sheet_of(l);
    let k = compile::key_spec(l.des.labels[i].at);
    touching::lemma_label_points(l.des.labels, l.des.labels.len() as int);
    assert(touching::last_label(l.des.labels, i, l.des.labels.len() as int));
    assert(s.at.contains((k, i)));
    let m = choose|m: int| 0 <= m < s.at.len() && s.at[m] == (k, i);
    let f = |i: int| check::cover_note(s, s.at[i]);
    lemma_gathered(doubt1(l), f, s.at.len() as int);
    lemma_cover_is(s, doubt1(l), s.at.len() as int, f);
    let a = check::label_area(l.des.labels[i], k);
    lemma_cover_hit(s.parts, a, 0);
    assert(s.parts[j].body == settled(l).part_box(l.des.parts[j], true));
    let h = check::area_hit(s.parts, a, None, 1, 20_000, 0);
    assert(h < s.parts.len());
    assert(f(m) is Some);
    lemma_doubts(l);
    lemma_still(doubt2(l), check::warnings_of(l), f(m)->0);
    let p = "label '"@ + l.des.labels[i].text + "' at "@ + check::point_text(k.point());
    let rest = " (rot "@ + text::numeral(l.des.labels[i].rot) + ") overlaps the body of "@
        + s.parts[h].id + "; rotate it to point away from the symbol or move it"@;
    assert(f(m)->0 =~= p + rest);
    lemma_tells(check::warnings_of(l), p, rest);
}

} // verus!
