//! No part of a circuit is lost when its parts are assigned to blocks.
use crate::circuit;
use crate::circuit::{PlanV, RollV};
use crate::engine::PartInst;
use crate::lint;
use crate::lint::BlockV;
use crate::symlib::SymbolIndex;
use crate::tree;
use vstd::prelude::*;

verus! {

/// Whether a part is in one of some blocks.
pub open spec fn in_a_block(v: Seq<PlanV>, i: int) -> bool {
    exists|m: int, j: int|
        0 <= m < v.len() && 0 <= j < v[m].members.len() && #[trigger] v[m].members[j] == i
}

/// Whether the part that each key in use means is in a block.
spec fn kept(parts: Seq<PartInst>, used: Seq<Seq<char>>, v: Seq<PlanV>) -> bool {
    forall|k: Seq<char>|
        #[trigger] used.contains(k) && lint::meant(parts, k) is Some ==> in_a_block(
            v,
            lint::meant(parts, k)->0 as int,
        )
}

proof fn lemma_more_blocks(v: Seq<PlanV>, p: PlanV, i: int)
    ensures
        in_a_block(v, i) ==> in_a_block(v.push(p), i),
        p.members.contains(i as usize) && 0 <= i <= usize::MAX ==> in_a_block(v.push(p), i),
{
    let w = v.push(p);
    if in_a_block(v, i) {
        let (m, j) = choose|m: int, j: int|
            0 <= m < v.len() && 0 <= j < v[m].members.len() && #[trigger] v[m].members[j] == i;
        assert(w[m].members[j] == i);
    }
    if p.members.contains(i as usize) && 0 <= i <= usize::MAX {
        let j = choose|j: int| 0 <= j < p.members.len() && p.members[j] == i as usize;
        assert(w[v.len() as int].members[j] == i);
    }
}

proof fn lemma_called(
    parts: Seq<PartInst>,
    title: Seq<char>,
    ids: Seq<Seq<char>>,
    st: RollV,
    n: int,
)
    requires
        0 <= n <= ids.len(),
    ensures
        ({
            let r = circuit::called(parts, title, ids, st, n);
            forall|k: Seq<char>|
                #[trigger] r.used.contains(k) ==> st.used.contains(k) || (lint::meant(parts, k)
                    is Some && r.members.contains(lint::meant(parts, k)->0))
        }),
    decreases n,
{
    if n > 0 {
        lemma_called(parts, title, ids, st, n - 1);
        let b = circuit::called(parts, title, ids, st, n - 1);
        let r = circuit::called(parts, title, ids, st, n);
        assert forall|k: Seq<char>| #[trigger] r.used.contains(k) implies st.used.contains(k) || (
        lint::meant(parts, k) is Some && r.members.contains(lint::meant(parts, k)->0)) by {
            if b.used.contains(k) {
                if !st.used.contains(k) {
                    let i = lint::meant(parts, k)->0;
                    let j = choose|j: int| 0 <= j < b.members.len() && b.members[j] == i;
                    assert(r.members[j] == i);
                }
            } else {
                let j = choose|j: int| 0 <= j < r.used.len() && r.used[j] == k;
                if j < b.used.len() {
                    assert(b.used[j] == k);
                }
                assert(k == ids[n - 1]);
                assert(r.members[b.members.len() as int] == lint::meant(parts, k)->0);
            }
        }
    }
}

proof fn lemma_with_plan(
    parts: Seq<PartInst>,
    used: Seq<Seq<char>>,
    more: Seq<Seq<char>>,
    v: Seq<PlanV>,
    b: BlockV,
    members: Seq<usize>,
)
    requires
        kept(parts, used, v),
        forall|k: Seq<char>|
            #[trigger] more.contains(k) ==> used.contains(k) || (lint::meant(parts, k) is Some
                && members.contains(lint::meant(parts, k)->0)),
    ensures
        kept(parts, more, circuit::with_plan(v, b, members)),
{
    let w = circuit::with_plan(v, b, members);
    let p = PlanV { block: b, members };
    assert forall|k: Seq<char>|
        #[trigger] more.contains(k) && lint::meant(parts, k) is Some implies in_a_block(
        w,
        lint::meant(parts, k)->0 as int,
    ) by {
        let i = lint::meant(parts, k)->0 as int;
        lemma_more_blocks(v, p, i);
        if used.contains(k) {
            assert(in_a_block(v, i));
        } else {
            assert(members.len() > 0);
        }
    }
}

proof fn lemma_collected(
    parts: Seq<PartInst>,
    v: Seq<BlockV>,
    errors: Seq<Seq<char>>,
    n: int,
)
    requires
        0 <= n <= v.len(),
    ensures
        kept(
            parts,
            circuit::collected(parts, v, errors, n).used,
            circuit::collected(parts, v, errors, n).plans,
        ),
    decreases n,
{
    if n > 0 {
        lemma_collected(parts, v, errors, n - 1);
        let b = circuit::collected(parts, v, errors, n - 1);
        let k = circuit::keyed_block(v[n - 1]);
        let ids = tree::ids_of(k.tree);
        let st = RollV { used: b.used, errors: b.errors, members: Seq::empty() };
        lemma_called(parts, k.title, ids, st, ids.len() as int);
        let r = circuit::called(parts, k.title, ids, st, ids.len() as int);
        lemma_with_plan(parts, b.used, r.used, b.plans, k, r.members);
    }
}

proof fn lemma_fresh(parts: Seq<PartInst>, ids: Seq<Seq<char>>, used: Seq<Seq<char>>, n: int)
    requires
        0 <= n <= ids.len(),
    ensures
        forall|k: Seq<char>|
            #[trigger] circuit::known_keys(parts, ids, n).contains(k) ==> lint::meant(parts, k)
                is Some && (used.contains(k) || circuit::fresh_members(
                parts,
                ids,
                used,
                n,
            ).contains(lint::meant(parts, k)->0)),
    decreases n,
{
    if n > 0 {
        lemma_fresh(parts, ids, used, n - 1);
        let a = circuit::known_keys(parts, ids, n - 1);
        let b = circuit::known_keys(parts, ids, n);
        let m = circuit::fresh_members(parts, ids, used, n - 1);
        let r = circuit::fresh_members(parts, ids, used, n);
        assert forall|k: Seq<char>| #[trigger] b.contains(k) implies lint::meant(parts, k) is Some
            && (used.contains(k) || r.contains(lint::meant(parts, k)->0)) by {
            if a.contains(k) {
                if !used.contains(k) {
                    let i = lint::meant(parts, k)->0;
                    let j = choose|j: int| 0 <= j < m.len() && m[j] == i;
                    assert(r[j] == i);
                }
            } else {
                let j = choose|j: int| 0 <= j < b.len() && b[j] == k;
                if j < a.len() {
                    assert(a[j] == k);
                }
                assert(k == ids[n - 1]);
                if !used.contains(k) {
                    assert(r[m.len() as int] == lint::meant(parts, k)->0);
                }
            }
        }
    }
}

proof fn lemma_recollected(parts: Seq<PartInst>, v: Seq<BlockV>, n: int)
    requires
        0 <= n <= v.len(),
    ensures
        kept(
            parts,
            circuit::recollected(parts, v, n).used,
            circuit::recollected(parts, v, n).plans,
        ),
    decreases n,
{
    if n > 0 {
        lemma_recollected(parts, v, n - 1);
        let b = circuit::recollected(parts, v, n - 1);
        let k = circuit::keyed_block(v[n - 1]);
        let ids = tree::ids_of(k.tree);
        let known = circuit::known_keys(parts, ids, ids.len() as int);
        let more = b.used + known;
        lemma_fresh(parts, ids, b.used, ids.len() as int);
        assert forall|q: Seq<char>| #[trigger] more.contains(q) implies b.used.contains(q) || (
        lint::meant(parts, q) is Some && circuit::fresh_members(
            parts,
            ids,
            b.used,
            ids.len() as int,
        ).contains(lint::meant(parts, q)->0)) by {
            let j = choose|j: int| 0 <= j < more.len() && more[j] == q;
            if j < b.used.len() {
                assert(b.used[j] == q);
            } else {
                assert(known[j - b.used.len()] == q);
                assert(known.contains(q));
            }
        }
        lemma_with_plan(
            parts,
            b.used,
            more,
            b.plans,
            k,
            circuit::fresh_members(parts, ids, b.used, ids.len() as int),
        );
    }
}

proof fn lemma_left_over(parts: Seq<PartInst>, used: Seq<Seq<char>>, n: int, i: int)
    requires
        0 <= i < n <= parts.len(),
        n <= usize::MAX,
        !used.contains(parts[i].key@),
    ensures
        circuit::left_over(parts, used, n).contains(i as usize),
    decreases n,
{
    let a = circuit::left_over(parts, used, n - 1);
    let b = circuit::left_over(parts, used, n);
    if i < n - 1 {
        lemma_left_over(parts, used, n - 1, i);
        let j = choose|j: int| 0 <= j < a.len() && a[j] == i as usize;
        assert(b[j] == i as usize);
    } else {
        assert(b[a.len() as int] == i as usize);
    }
}

/// Each part of a circuit whose key means it is in a block: one that the layout names it in, or
/// the one that holds what no tree names.
pub proof fn every_part_is_in_a_block(
    parts: Seq<PartInst>,
    power: Seq<Seq<char>>,
    index: SymbolIndex,
    layout: Seq<BlockV>,
    notes: Seq<Seq<char>>,
    i: int,
)
    requires
        0 <= i < parts.len() <= usize::MAX,
        lint::meant(parts, parts[i].key@) == Some(i as usize),
    ensures
        in_a_block(circuit::planned(parts, power, index, layout, notes).plans, i),
{
    let a = circuit::collected(parts, layout, notes, layout.len() as int);
    let l = lint::linted(parts, power, index, circuit::keyed_blocks(layout));
    let b = if l.notes.len() > 0 {
        circuit::recollected(parts, l.v, l.v.len() as int)
    } else {
        a
    };
    lemma_collected(parts, layout, notes, layout.len() as int);
    lemma_recollected(parts, l.v, l.v.len() as int);
    assert(kept(parts, b.used, b.plans));
    let rest = circuit::left_over(parts, b.used, parts.len() as int);
    let misc = PlanV { block: circuit::misc_block(parts, rest), members: rest };
    lemma_more_blocks(b.plans, misc, i);
    if b.used.contains(parts[i].key@) {
        assert(in_a_block(b.plans, i));
    } else {
        lemma_left_over(parts, b.used, parts.len() as int, i);
        assert(rest.contains(i as usize));
    }
}

} // verus!
