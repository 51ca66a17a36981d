//! Power symbols that a circuit lists as parts: they leave, flags stay known, and each is told.
use crate::arrange;
use crate::circuit;
use crate::engine::PartSpec;
use crate::lint::BlockV;
use crate::symlib::SymbolIndex;
use vstd::prelude::*;

verus! {

/// Whether a net is on a pin of a part that is a flag.
pub open spec fn flagged(ps: Seq<PartSpec>, index: SymbolIndex, i: int, net: Seq<char>) -> bool {
    &&& 0 <= i < ps.len()
    &&& circuit::power_symbol(ps[i], index)
    &&& circuit::is_flag_part(ps[i])
    &&& circuit::listed_nets(ps[i], ps[i].pins@.len() as int).contains(net)
}

proof fn lemma_with_new(v: Seq<Seq<char>>, more: Seq<Seq<char>>, n: int)
    requires
        0 <= n <= more.len(),
    ensures
        forall|t: Seq<char>| #[trigger]
            circuit::with_new(v, more, n).contains(t) <==> v.contains(t) || exists|i: int|
                0 <= i < n && #[trigger] more[i] == t,
    decreases n,
{
    if n > 0 {
        lemma_with_new(v, more, n - 1);
        let a = circuit::with_new(v, more, n - 1);
        let b = circuit::with_new(v, more, n);
        assert forall|t: Seq<char>| #[trigger] b.contains(t) <==> v.contains(t) || exists|i: int|
            0 <= i < n && #[trigger] more[i] == t by {
            assert(a.contains(t) <==> v.contains(t) || exists|i: int|
                0 <= i < n - 1 && #[trigger] more[i] == t);
            if a.contains(t) {
                let j = choose|j: int| 0 <= j < a.len() && a[j] == t;
                assert(b[j] == t);
                if !v.contains(t) {
                    let i = choose|i: int| 0 <= i < n - 1 && #[trigger] more[i] == t;
                    assert(0 <= i < n && more[i] == t);
                }
            }
            if b.contains(t) && !a.contains(t) {
                let j = choose|j: int| 0 <= j < b.len() && b[j] == t;
                if j < a.len() {
                    assert(a[j] == t);
                }
                assert(more[n - 1] == t);
            }
            if exists|i: int| 0 <= i < n && #[trigger] more[i] == t {
                let i = choose|i: int| 0 <= i < n && #[trigger] more[i] == t;
                if i < n - 1 {
                    assert(a.contains(t));
                } else if !a.contains(t) {
                    assert(b[a.len() as int] == t);
                }
            }
        }
    }
}

proof fn lemma_stripped(
    ps: Seq<PartSpec>,
    flags: Seq<Seq<char>>,
    layout: Seq<BlockV>,
    index: SymbolIndex,
    n: int,
)
    requires
        0 <= n <= ps.len(),
    ensures
        ({
            let s = circuit::stripped(ps, flags, layout, index, n);
            &&& s.parts == ps.take(n).filter(|p: PartSpec| !circuit::power_symbol(p, index))
            &&& forall|t: Seq<char>| #[trigger]
                s.flags.contains(t) <==> flags.contains(t) || exists|i: int|
                    i < n && #[trigger] flagged(ps, index, i, t)
            &&& forall|i: int|
                0 <= i < n && circuit::power_symbol(#[trigger] ps[i], index) ==> s.notes.contains(
                    circuit::strip_note(ps[i]),
                )
            &&& (forall|i: int| 0 <= i < n ==> !circuit::power_symbol(#[trigger] ps[i], index))
                ==> s.notes.len() == 0 && s.layout == layout
        }),
    decreases n,
{
    reveal(Seq::filter);
    let s = circuit::stripped(ps, flags, layout, index, n);
    if n > 0 {
        lemma_stripped(ps, flags, layout, index, n - 1);
        let b = circuit::stripped(ps, flags, layout, index, n - 1);
        let p = ps[n - 1];
        let nets = circuit::listed_nets(p, p.pins@.len() as int);
        assert(ps.take(n).drop_last() =~= ps.take(n - 1));
        assert(ps.take(n).last() == p);
        lemma_with_new(b.flags, nets, nets.len() as int);
        assert forall|t: Seq<char>| #[trigger] s.flags.contains(t) <==> flags.contains(t)
            || exists|i: int| i < n && #[trigger] flagged(ps, index, i, t) by {
            assert(b.flags.contains(t) <==> flags.contains(t) || exists|i: int|
                i < n - 1 && #[trigger] flagged(ps, index, i, t));
            if exists|i: int| i < n - 1 && #[trigger] flagged(ps, index, i, t) {
                let i = choose|i: int| i < n - 1 && #[trigger] flagged(ps, index, i, t);
                assert(i < n && flagged(ps, index, i, t));
            }
            if exists|i: int| i < n && #[trigger] flagged(ps, index, i, t) {
                let i = choose|i: int| i < n && #[trigger] flagged(ps, index, i, t);
                if i < n - 1 {
                    assert(i < n - 1 && flagged(ps, index, i, t));
                } else {
                    let j = choose|j: int| 0 <= j < nets.len() && nets[j] == t;
                    assert(0 <= j < nets.len() && nets[j] == t);
                }
            }
            if s.flags.contains(t) && !b.flags.contains(t) {
                let j = choose|j: int| 0 <= j < nets.len() && #[trigger] nets[j] == t;
                assert(nets.contains(t));
                assert(n - 1 < n && flagged(ps, index, n - 1, t));
            }
        }
        assert forall|i: int|
            0 <= i < n && circuit::power_symbol(#[trigger] ps[i], index) implies s.notes.contains(
            circuit::strip_note(ps[i]),
        ) by {
            let t = circuit::strip_note(ps[i]);
            if i < n - 1 {
                let j = choose|j: int| 0 <= j < b.notes.len() && b.notes[j] == t;
                assert(s.notes[j] == t);
            } else {
                assert(s.notes[b.notes.len() as int] == t);
            }
        }
    } else {
        assert(ps.take(0).len() == 0);
        assert(s.parts =~= ps.take(0).filter(|p: PartSpec| !circuit::power_symbol(p, index)));
    }
}

/// Of the parts that a circuit lists the power symbols leave and the others stay in order; the nets
/// of flag symbols become flags, and no others do; each symbol that leaves is told of, and where
/// none does nothing is said and the layout stays.
pub proof fn power_symbols_leave_the_parts(
    ps: Seq<PartSpec>,
    flags: Seq<Seq<char>>,
    layout: Seq<BlockV>,
    index: SymbolIndex,
)
    ensures
        ({
            let s = circuit::stripped(ps, flags, layout, index, ps.len() as int);
            &&& s.parts == ps.filter(|p: PartSpec| !circuit::power_symbol(p, index))
            &&& forall|t: Seq<char>| #[trigger]
                s.flags.contains(t) <==> flags.contains(t) || exists|i: int| #[trigger]
                    flagged(ps, index, i, t)
            &&& forall|i: int|
                0 <= i < ps.len() && circuit::power_symbol(#[trigger] ps[i], index)
                    ==> s.notes.contains(circuit::strip_note(ps[i]))
            &&& (forall|i: int|
                0 <= i < ps.len() ==> !circuit::power_symbol(#[trigger] ps[i], index))
                ==> s.notes.len() == 0 && s.layout == layout
        }),
{
    let n = ps.len() as int;
    lemma_stripped(ps, flags, layout, index, n);
    assert(ps.take(n) =~= ps);
    let s = circuit::stripped(ps, flags, layout, index, n);
    assert forall|t: Seq<char>| #[trigger] s.flags.contains(t) <==> flags.contains(t) || exists|
        i: int,
    | #[trigger] flagged(ps, index, i, t) by {
        if exists|i: int| #[trigger] flagged(ps, index, i, t) {
            let i = choose|i: int| #[trigger] flagged(ps, index, i, t);
            assert(i < n && flagged(ps, index, i, t));
        }
    }
}

// ---------------------------------------------------------------- the best of several
/// The trial that is taken has the least score of all, and is the first that has it.
pub proof fn the_least_score_wins(v: Seq<i64>, n: int)
    requires
        0 < n <= v.len(),
    ensures
        0 <= arrange::least(v, n) < n,
        forall|i: int| 0 <= i < n ==> v[arrange::least(v, n)] <= #[trigger] v[i],
        forall|i: int| 0 <= i < arrange::least(v, n) ==> v[arrange::least(v, n)] < #[trigger] v[i],
    decreases n,
{
    if n > 1 {
        the_least_score_wins(v, n - 1);
    }
}

} // verus!
