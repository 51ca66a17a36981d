//! What is read of a sheet that was written: the same drawing.
use crate::compile;
use crate::extract;
use crate::geom::Pt;
use crate::group;
use crate::model::{DesignV, LabelV, RectV, TextV};
use crate::number;
use crate::number::NUM_MAX;
use crate::order_map::OrderMap;
use crate::readsym::{
    found_on, lemma_part_node, lemma_power_node, lemma_spaced, part_read, part_written, plain_part,
    plain_power, power_read, power_written, spaced, WrittenPart, WrittenPower,
};
use crate::sexp;
use crate::sexp::SexpV;
use crate::symlib::SymbolInfo;
use crate::text;
use std::sync::Arc;
use vstd::prelude::*;

verus! {

// ---------------------------------------------------------------- atoms that keep their meaning
/// Whether every atom of a node means the same when it is read again: a string comes back, a symbol
/// looks like no number, a number is not too large.
pub open spec fn steady(n: SexpV) -> bool
    decreases n,
{
    match n {
        SexpV::List(v) => forall|i: int| 0 <= i < v.len() ==> steady(#[trigger] v[i]),
        SexpV::Str(s) => sexp::unescaped(sexp::escaped(s)) == s,
        SexpV::Sym(s) => sexp::is_token(s) && sexp::atom_of(s) == n,
        SexpV::Int(i) => -9_000_000_000 <= i <= 9_000_000_000,
        SexpV::Dec(d) => -NUM_MAX <= d <= NUM_MAX,
    }
}

proof fn lemma_run(a: Seq<char>, i: int)
    requires
        0 <= i <= a.len(),
        forall|k: int| i <= k < a.len() ==> text::is_digit(#[trigger] a[k]),
    ensures
        number::run_end(a, i) == a.len(),
    decreases a.len() - i,
{
    if i < a.len() {
        lemma_run(a, i + 1);
    }
}

proof fn lemma_no_run(a: Seq<char>, i: int, j: int)
    requires
        0 <= i <= j < a.len(),
        !text::is_digit(a[j]),
    ensures
        number::run_end(a, i) <= j,
    decreases j - i,
{
    if i < j && text::is_digit(a[i]) {
        lemma_no_run(a, i + 1, j);
    }
}

/// A decimal number reads back as a number of the same size and look.
proof fn lemma_dec(d: int)
    requires
        -NUM_MAX <= d <= NUM_MAX,
    ensures
        sexp::is_token(number::shown(d)),
        sexp::number_in(sexp::atom_of(number::shown(d))) == Some(d),
        sexp::text_of(sexp::atom_of(number::shown(d))) == number::shown(d),
        sexp::atom_of(number::shown(d)) is Int || sexp::atom_of(number::shown(d)) is Dec,
{
    number::lemma_shown(d);
    number::shown_numbers_read_back(d);
    let a = number::shown(d);
    let m = crate::geom::mag(d);
    let digits = text::digits((m / 1_000_000) as nat);
    let k = if d < 0 {
        1int
    } else {
        0
    };
    let w = k + digits.len();
    assert forall|i: int| 0 <= i < a.len() implies !sexp::ends_token(#[trigger] a[i]) by {
        if i == w && i < a.len() {
            assert(a[i] == '.');
        }
    }
    assert(text::is_digit(a[k]));
    if d % 1_000_000 == 0 {
        lemma_run(a, k);
        assert(sexp::is_int_token(a));
        if d < 0 {
            assert(a.skip(1) =~= digits);
        } else {
            assert(a =~= digits);
        }
        assert(sexp::int_token(a) == d / 1_000_000);
        assert(text::numeral(d / 1_000_000) =~= a);
    } else {
        lemma_no_run(a, k, w);
        assert(!sexp::is_int_token(a));
        assert(sexp::split_as(a, k, w, w + 1, a.len() as int));
        assert(sexp::plain_float(a));
    }
}

/// A whole number reads back as itself.
proof fn lemma_int(i: int)
    requires
        -9_000_000_000 <= i <= 9_000_000_000,
    ensures
        sexp::is_token(text::numeral(i)),
        sexp::atom_of(text::numeral(i)) == SexpV::Int(i),
{
    let a = text::numeral(i);
    let m = if i < 0 {
        -i
    } else {
        i
    };
    assert(number::pow10(10) == 10_000_000_000) by {
        reveal_with_fuel(number::pow10, 11);
    }
    number::numerals_have_their_value(m as nat, 10);
    let d = text::digits(m as nat);
    let k = if i < 0 {
        1int
    } else {
        0
    };
    assert forall|j: int| k <= j < a.len() implies text::is_digit(#[trigger] a[j]) by {
        assert(a[j] == d[j - k]);
    }
    assert(text::is_digit(a[k]));
    lemma_run(a, k);
    if i < 0 {
        assert(a.skip(1) =~= d);
    }
}

pub(crate) proof fn lemma_atom(n: SexpV)
    requires
        steady(n),
        !(n is List),
    ensures
        sexp::legible(n),
        !(sexp::reread(n) is List),
        sexp::text_of(sexp::reread(n)) == sexp::text_of(n),
        sexp::as_text(sexp::reread(n)) == sexp::as_text(n),
        sexp::number_in(sexp::reread(n)) == sexp::number_in(n),
{
    match n {
        SexpV::Int(i) => lemma_int(i),
        SexpV::Dec(d) => lemma_dec(d),
        _ => {},
    }
}

/// What an atom is read as stays.
pub(crate) proof fn lemma_atom_again(n: SexpV)
    requires
        steady(n),
        !(n is List),
    ensures
        sexp::reread(sexp::reread(n)) == sexp::reread(n),
        steady(sexp::reread(n)),
{
    match n {
        SexpV::Int(i) => lemma_int(i),
        SexpV::Dec(d) => {
            lemma_dec(d);
            let a = sexp::atom_of(number::shown(d));
            assert(sexp::text_of(a) == number::shown(d));
        },
        _ => {},
    }
}

proof fn lemma_legible(n: SexpV)
    requires
        steady(n),
    ensures
        sexp::legible(n),
    decreases n,
{
    match n {
        SexpV::List(v) => {
            assert forall|i: int| 0 <= i < v.len() implies sexp::legible(#[trigger] v[i]) by {
                assert(steady(v[i]));
                lemma_legible(v[i]);
            }
        },
        _ => lemma_atom(n),
    }
}

// ---------------------------------------------------------------- looking at what was read
/// Items are read one by one, and lists keep their tags.
pub(crate) proof fn lemma_list(n: SexpV)
    requires
        steady(n),
        n is List,
    ensures
        sexp::reread(n) is List,
        sexp::items_of(sexp::reread(n)).len() == sexp::items_of(n).len(),
        forall|i: int|
            0 <= i < sexp::items_of(n).len() ==> (#[trigger] sexp::items_of(sexp::reread(n))[i])
                == sexp::reread(sexp::items_of(n)[i]) && steady(sexp::items_of(n)[i]),
        sexp::tag_of(sexp::reread(n)) == sexp::tag_of(n),
{
    let v = n->List_0;
    sexp::lemma_reread_items(v, v.len());
    assert forall|i: int| 0 <= i < v.len() implies steady(#[trigger] v[i]) by {
    }
    if v.len() > 0 {
        assert(steady(v[0]));
        if !(v[0] is List) {
            lemma_atom(v[0]);
        }
    }
}

proof fn lemma_tagged(c: SexpV, tag: Seq<char>)
    requires
        steady(c),
    ensures
        sexp::is_tagged(sexp::reread(c), tag) == sexp::is_tagged(c, tag),
        sexp::reread(c) is List <==> c is List,
{
    if c is List {
        lemma_list(c);
    } else {
        lemma_atom(c);
    }
}

pub open spec fn reread_opt(n: Option<SexpV>) -> Option<SexpV> {
    match n {
        Some(x) => Some(sexp::reread(x)),
        None => None,
    }
}

proof fn lemma_seek(n: SexpV, tag: Seq<char>, i: int)
    requires
        steady(n),
        n is List,
        0 <= i,
    ensures
        sexp::seek_tag(sexp::items_of(sexp::reread(n)), tag, i) == sexp::seek_tag(
            sexp::items_of(n),
            tag,
            i,
        ),
        sexp::seek_tag(sexp::items_of(n), tag, i) >= i,
    decreases sexp::items_of(n).len() - i,
{
    lemma_list(n);
    let v = sexp::items_of(n);
    if i < v.len() {
        assert(sexp::items_of(sexp::reread(n))[i] == sexp::reread(v[i]));
        lemma_tagged(v[i], tag);
        if !sexp::is_tagged(v[i], tag) {
            lemma_seek(n, tag, i + 1);
        }
    }
}

/// The child with a tag, as it is read.
proof fn lemma_child(n: SexpV, tag: Seq<char>)
    requires
        steady(n),
        n is List,
    ensures
        sexp::child_of(sexp::reread(n), tag) == reread_opt(sexp::child_of(n, tag)),
        match sexp::child_of(n, tag) {
            Some(c) => steady(c) && c is List,
            None => true,
        },
{
    lemma_list(n);
    lemma_seek(n, tag, 1);
    let v = sexp::items_of(n);
    let i = sexp::seek_tag(v, tag, 1);
    if i < v.len() {
        assert(sexp::items_of(sexp::reread(n))[i] == sexp::reread(v[i]));
        lemma_found(v, tag, 1);
    }
}

proof fn lemma_found(v: Seq<SexpV>, tag: Seq<char>, i: int)
    requires
        0 <= i,
    ensures
        sexp::seek_tag(v, tag, i) >= i,
        sexp::seek_tag(v, tag, i) < v.len() ==> sexp::is_tagged(v[sexp::seek_tag(v, tag, i)], tag),
        forall|j: int|
            i <= j < sexp::seek_tag(v, tag, i) && j < v.len() ==> !sexp::is_tagged(
                #[trigger] v[j],
                tag,
            ),
    decreases v.len() - i,
{
    if i < v.len() && !sexp::is_tagged(v[i], tag) {
        lemma_found(v, tag, i + 1);
    }
}

proof fn lemma_children(n: SexpV, tag: Seq<char>, k: int)
    requires
        steady(n),
        n is List,
        k <= sexp::items_of(n).len(),
    ensures
        sexp::tagged(sexp::items_of(sexp::reread(n)), tag, k) == Seq::new(
            sexp::tagged(sexp::items_of(n), tag, k).len(),
            |i: int| sexp::reread(sexp::tagged(sexp::items_of(n), tag, k)[i]),
        ),
        forall|i: int|
            0 <= i < sexp::tagged(sexp::items_of(n), tag, k).len() ==> steady(
                #[trigger] sexp::tagged(sexp::items_of(n), tag, k)[i],
            ) && sexp::tagged(sexp::items_of(n), tag, k)[i] is List,
    decreases k,
{
    let v = sexp::items_of(n);
    let w = sexp::items_of(sexp::reread(n));
    let a = sexp::tagged(v, tag, k);
    let b = sexp::tagged(w, tag, k);
    lemma_list(n);
    if k > 1 {
        lemma_children(n, tag, k - 1);
        assert(w[k - 1] == sexp::reread(v[k - 1]));
        lemma_tagged(v[k - 1], tag);
    }
    assert(b =~= Seq::new(a.len(), |i: int| sexp::reread(a[i])));
}

pub(crate) proof fn lemma_text_at(n: SexpV, i: int)
    requires
        steady(n),
        n is List,
        0 <= i,
    ensures
        extract::text_at(Some(sexp::reread(n)), i) == extract::text_at(Some(n), i),
        extract::number_at(sexp::reread(n), i) == extract::number_at(n, i),
        i < sexp::items_of(n).len() ==> sexp::number_in(sexp::items_of(sexp::reread(n))[i])
            == sexp::number_in(sexp::items_of(n)[i]),
{
    lemma_list(n);
    let v = sexp::items_of(n);
    if i < v.len() {
        assert(sexp::items_of(sexp::reread(n))[i] == sexp::reread(v[i]));
        if v[i] is List {
            lemma_list(v[i]);
        } else {
            lemma_atom(v[i]);
        }
    }
}

proof fn lemma_xy(n: SexpV)
    requires
        steady(n),
        n is List,
    ensures
        extract::xy_of(sexp::reread(n)) == extract::xy_of(n),
        extract::at_of(Some(sexp::reread(n))) == extract::at_of(Some(n)),
{
    lemma_text_at(n, 1);
    lemma_text_at(n, 2);
    lemma_text_at(n, 3);
}

proof fn lemma_child_text(n: SexpV, tag: Seq<char>)
    requires
        steady(n),
        n is List,
    ensures
        extract::text_of(sexp::child_of(sexp::reread(n), tag)) == extract::text_of(
            sexp::child_of(n, tag),
        ),
        extract::at_of(sexp::child_of(sexp::reread(n), tag)) == extract::at_of(
            sexp::child_of(n, tag),
        ),
        extract::point_in(sexp::child_of(sexp::reread(n), tag)) == extract::point_in(
            sexp::child_of(n, tag),
        ),
        sexp::child_of(sexp::reread(n), tag) is Some <==> sexp::child_of(n, tag) is Some,
{
    lemma_child(n, tag);
    if let Some(c) = sexp::child_of(n, tag) {
        lemma_text_at(c, 1);
        lemma_xy(c);
    }
}

/// The words of a `justify` node are read as they were written.
proof fn lemma_justify(n: SexpV)
    requires
        steady(n),
        n is List,
    ensures
        extract::justify_of(sexp::child_of(sexp::reread(n), "effects"@)) == extract::justify_of(
            sexp::child_of(n, "effects"@),
        ),
{
    lemma_child(n, "effects"@);
    if let Some(e) = sexp::child_of(n, "effects"@) {
        lemma_child(e, "justify"@);
        if let Some(j) = sexp::child_of(e, "justify"@) {
            let v = sexp::items_of(j);
            let w = sexp::items_of(sexp::reread(j));
            lemma_list(j);
            assert forall|i: int| 0 <= i < v.len() implies sexp::text_of(#[trigger] w[i])
                == sexp::text_of(v[i]) by {
                assert(w[i] == sexp::reread(v[i]));
                if v[i] is List {
                    lemma_list(v[i]);
                } else {
                    lemma_atom(v[i]);
                }
            }
            assert(extract::texts_from(extract::behind_tag(w)) =~= extract::texts_from(
                extract::behind_tag(v),
            ));
        }
    }
}

// ---------------------------------------------------------------- nodes of a sheet as they are read
proof fn lemma_read_wire(des: DesignV, n: SexpV)
    requires
        steady(n),
        n is List,
    ensures
        extract::with_wire(des, sexp::reread(n)) == extract::with_wire(des, n),
{
    lemma_child(n, "pts"@);
    lemma_child_text(n, "uuid"@);
    if let Some(p) = sexp::child_of(n, "pts"@) {
        let k = sexp::items_of(p).len() as int;
        lemma_list(p);
        lemma_children(p, "xy"@, k);
        let a = sexp::children_of(p, "xy"@);
        let b = sexp::children_of(sexp::reread(p), "xy"@);
        assert forall|i: int| 0 <= i < a.len() implies extract::xy_of(#[trigger] b[i])
            == extract::xy_of(a[i]) by {
            assert(b[i] == sexp::reread(a[i]));
            lemma_xy(a[i]);
        }
        assert(extract::points_of(b) =~= extract::points_of(a));
    }
}

proof fn lemma_read_label(des: DesignV, n: SexpV, kind: Seq<char>)
    requires
        steady(n),
        n is List,
    ensures
        extract::with_label(des, sexp::reread(n), kind) == extract::with_label(des, n, kind),
{
    lemma_child_text(n, "at"@);
    lemma_child_text(n, "shape"@);
    lemma_child_text(n, "uuid"@);
    lemma_text_at(n, 1);
    lemma_justify(n);
}

proof fn lemma_read_text(des: DesignV, n: SexpV)
    requires
        steady(n),
        n is List,
    ensures
        extract::with_text(des, sexp::reread(n)) == extract::with_text(des, n),
{
    lemma_child_text(n, "at"@);
    lemma_child_text(n, "uuid"@);
    lemma_text_at(n, 1);
    lemma_justify(n);
    lemma_child(n, "effects"@);
    if let Some(e) = sexp::child_of(n, "effects"@) {
        lemma_child(e, "font"@);
        if let Some(f) = sexp::child_of(e, "font"@) {
            lemma_child(f, "size"@);
            lemma_child_text(f, "bold"@);
            if let Some(s) = sexp::child_of(f, "size"@) {
                lemma_text_at(s, 1);
                lemma_list(s);
            }
        }
    }
}

proof fn lemma_read_rect(des: DesignV, n: SexpV)
    requires
        steady(n),
        n is List,
    ensures
        extract::with_rect(des, sexp::reread(n)) == extract::with_rect(des, n),
{
    lemma_child_text(n, "start"@);
    lemma_child_text(n, "end"@);
    lemma_child_text(n, "uuid"@);
}

/// A node that is neither a symbol nor kept as it stands is taken into a design as it was written.
proof fn lemma_read_node(des: DesignV, n: SexpV, infos: OrderMap<Arc<SymbolInfo>>)
    requires
        steady(n),
        sexp::tag_of(n) != "symbol"@,
    ensures
        extract::with_node(des, sexp::reread(n), infos) == (if n is List && extract::with_node(
            des,
            n,
            infos,
        ).extra_nodes.len() != des.extra_nodes.len() {
            DesignV { extra_nodes: des.extra_nodes.push(sexp::reread(n)), ..des }
        } else {
            extract::with_node(des, n, infos)
        }),
{
    if !(n is List) {
        lemma_atom(n);
    } else {
        lemma_list(n);
        lemma_child(n, "at"@);
        if let Some(a) = sexp::child_of(n, "at"@) {
            lemma_xy(a);
        }
        lemma_read_wire(des, n);
        lemma_read_label(des, n, "local"@);
        lemma_read_label(des, n, "global"@);
        lemma_read_label(des, n, "hier"@);
        lemma_read_text(des, n);
        lemma_read_rect(des, n);
    }
}

// ---------------------------------------------------------------- symbols as they are read
proof fn lemma_prop(c: SexpV, name: Seq<char>)
    requires
        steady(c),
    ensures
        sexp::is_prop(sexp::reread(c), name) == sexp::is_prop(c, name),
{
    if c is List {
        lemma_list(c);
        let v = sexp::items_of(c);
        if v.len() > 2 {
            assert(sexp::items_of(sexp::reread(c))[1] == sexp::reread(v[1]));
            if v[1] is List {
                lemma_list(v[1]);
            } else {
                lemma_atom(v[1]);
            }
        }
    } else {
        lemma_atom(c);
    }
}

proof fn lemma_seek_prop(n: SexpV, name: Seq<char>, i: int)
    requires
        steady(n),
        n is List,
        0 <= i,
    ensures
        sexp::seek_prop(sexp::items_of(sexp::reread(n)), name, i) == sexp::seek_prop(
            sexp::items_of(n),
            name,
            i,
        ),
        sexp::seek_prop(sexp::items_of(n), name, i) >= i,
        ({
            let k = sexp::seek_prop(sexp::items_of(n), name, i);
            k < sexp::items_of(n).len() ==> sexp::is_prop(sexp::items_of(n)[k], name)
        }),
    decreases sexp::items_of(n).len() - i,
{
    lemma_list(n);
    let v = sexp::items_of(n);
    if i < v.len() {
        assert(sexp::items_of(sexp::reread(n))[i] == sexp::reread(v[i]));
        lemma_prop(v[i], name);
        if !sexp::is_prop(v[i], name) {
            lemma_seek_prop(n, name, i + 1);
        }
    }
}

proof fn lemma_prop_pos(n: SexpV, name: Seq<char>)
    requires
        steady(n),
        n is List,
    ensures
        sexp::prop_text(sexp::reread(n), name) == sexp::prop_text(n, name),
        extract::prop_pos(sexp::reread(n), name) == extract::prop_pos(n, name),
{
    lemma_list(n);
    lemma_seek_prop(n, name, 1);
    let v = sexp::items_of(n);
    let i = sexp::seek_prop(v, name, 1);
    if i < v.len() {
        let p = v[i];
        assert(sexp::items_of(sexp::reread(n))[i] == sexp::reread(p));
        assert(sexp::items_of(p).len() > 2);
        lemma_text_at(p, 2);
        lemma_list(p);
        assert(sexp::items_of(sexp::reread(p))[2] == sexp::reread(sexp::items_of(p)[2]));
        lemma_child(p, "at"@);
        lemma_child(p, "effects"@);
        lemma_justify(p);
        if let Some(a) = sexp::child_of(p, "at"@) {
            lemma_xy(a);
            lemma_text_at(a, 3);
        }
        if let Some(e) = sexp::child_of(p, "effects"@) {
            lemma_child_text(e, "hide"@);
        }
    }
}

proof fn lemma_paths(st: extract::InstV, proj: SexpV, n: int)
    requires
        steady(proj),
        proj is List,
        0 <= n <= sexp::children_of(proj, "path"@).len(),
    ensures
        extract::with_paths(
            st,
            sexp::reread(proj),
            sexp::children_of(sexp::reread(proj), "path"@),
            n,
        ) == extract::with_paths(st, proj, sexp::children_of(proj, "path"@), n),
    decreases n,
{
    let k = sexp::items_of(proj).len() as int;
    lemma_list(proj);
    lemma_children(proj, "path"@, k);
    lemma_text_at(proj, 1);
    if n > 0 {
        lemma_paths(st, proj, n - 1);
        let p = sexp::children_of(proj, "path"@)[n - 1];
        assert(sexp::children_of(sexp::reread(proj), "path"@)[n - 1] == sexp::reread(p));
        lemma_text_at(p, 1);
        lemma_child_text(p, "reference"@);
        lemma_child(p, "reference"@);
    }
}

proof fn lemma_projects(st: extract::InstV, inst: SexpV, n: int)
    requires
        steady(inst),
        inst is List,
        0 <= n <= sexp::children_of(inst, "project"@).len(),
    ensures
        extract::with_projects(st, sexp::children_of(sexp::reread(inst), "project"@), n)
            == extract::with_projects(st, sexp::children_of(inst, "project"@), n),
    decreases n,
{
    let k = sexp::items_of(inst).len() as int;
    lemma_list(inst);
    lemma_children(inst, "project"@, k);
    if n > 0 {
        lemma_projects(st, inst, n - 1);
        let p = sexp::children_of(inst, "project"@)[n - 1];
        assert(sexp::children_of(sexp::reread(inst), "project"@)[n - 1] == sexp::reread(p));
        let m = sexp::children_of(p, "path"@).len() as int;
        lemma_list(p);
        lemma_children(p, "path"@, sexp::items_of(p).len() as int);
        lemma_paths(
            extract::with_projects(st, sexp::children_of(inst, "project"@), n - 1),
            p,
            m,
        );
    }
}

proof fn lemma_fields(n: SexpV, k: int)
    requires
        steady(n),
        n is List,
        0 <= k <= sexp::children_of(n, "property"@).len(),
    ensures
        extract::fields_of(sexp::children_of(sexp::reread(n), "property"@), k)
            == extract::fields_of(sexp::children_of(n, "property"@), k),
    decreases k,
{
    let m = sexp::items_of(n).len() as int;
    lemma_list(n);
    lemma_children(n, "property"@, m);
    if k > 0 {
        lemma_fields(n, k - 1);
        let p = sexp::children_of(n, "property"@)[k - 1];
        assert(sexp::children_of(sexp::reread(n), "property"@)[k - 1] == sexp::reread(p));
        lemma_text_at(p, 1);
        lemma_text_at(p, 2);
    }
}

/// A symbol is taken into a design as it was written.
#[verifier::spinoff_prover]
proof fn lemma_read_symbol(des: DesignV, n: SexpV, infos: OrderMap<Arc<SymbolInfo>>)
    requires
        steady(n),
        n is List,
    ensures
        extract::with_symbol(des, sexp::reread(n), infos) == extract::with_symbol(des, n, infos),
{
    let m = sexp::items_of(n).len() as int;
    lemma_list(n);
    lemma_child_text(n, "lib_id"@);
    lemma_child_text(n, "at"@);
    lemma_child_text(n, "mirror"@);
    lemma_child_text(n, "uuid"@);
    lemma_child_text(n, "lib_name"@);
    lemma_child_text(n, "dnp"@);
    lemma_prop_pos(n, "Value"@);
    lemma_prop_pos(n, "Reference"@);
    lemma_prop_pos(n, "Footprint"@);
    lemma_child(n, "unit"@);
    if let Some(u) = sexp::child_of(n, "unit"@) {
        lemma_text_at(u, 1);
        lemma_list(u);
    }
    lemma_children(n, "property"@, m);
    lemma_fields(n, sexp::children_of(n, "property"@).len() as int);
    lemma_child(n, "instances"@);
    if let Some(i) = sexp::child_of(n, "instances"@) {
        lemma_list(i);
        lemma_children(i, "project"@, sexp::items_of(i).len() as int);
        let st = extract::InstV {
            reference: match sexp::prop_text(n, "Reference"@) {
                Some(r) => r,
                None => "?"@,
            },
            path: des.sheet_path_uuid,
            project: des.project,
        };
        lemma_projects(st, i, sexp::children_of(i, "project"@).len() as int);
    }
    assert(extract::instance_of(des, sexp::reread(n)) == extract::instance_of(des, n));
}

// ---------------------------------------------------------------- a sheet as it is read
pub open spec fn reread_all(v: Seq<SexpV>) -> Seq<SexpV> {
    Seq::new(v.len(), |i: int| sexp::reread(v[i]))
}

/// What is kept as it stands does not bear on what else is taken in.
proof fn lemma_apart(
    a: DesignV,
    extra: Seq<SexpV>,
    n: SexpV,
    infos: OrderMap<Arc<SymbolInfo>>,
)
    ensures
        ({
            let b = DesignV { extra_nodes: extra, ..a };
            let x = extract::with_node(a, n, infos);
            let y = extract::with_node(b, n, infos);
            if x.extra_nodes.len() == a.extra_nodes.len() {
                y == (DesignV { extra_nodes: extra, ..x }) && x.extra_nodes == a.extra_nodes
            } else {
                y == (DesignV { extra_nodes: extra.push(n), ..x }) && x.extra_nodes
                    == a.extra_nodes.push(n) && x == (DesignV {
                    extra_nodes: a.extra_nodes.push(n),
                    ..a
                }) && n is List
            }
        }),
{
    let b = DesignV { extra_nodes: extra, ..a };
    assert(extract::instance_of(b, n) == extract::instance_of(a, n));
}

proof fn lemma_read_items(
    base: DesignV,
    root: SexpV,
    infos: OrderMap<Arc<SymbolInfo>>,
    n: int,
)
    requires
        steady(root),
        root is List,
        base.extra_nodes.len() == 0,
        n <= sexp::items_of(root).len(),
    ensures
        ({
            let a = extract::with_nodes(base, sexp::items_of(root), infos, n);
            extract::with_nodes(base, sexp::items_of(sexp::reread(root)), infos, n) == (DesignV {
                extra_nodes: reread_all(a.extra_nodes),
                ..a
            })
        }),
    decreases n,
{
    lemma_list(root);
    let v = sexp::items_of(root);
    let w = sexp::items_of(sexp::reread(root));
    if n <= 1 {
        assert(reread_all(base.extra_nodes) =~= base.extra_nodes);
    } else {
        lemma_read_items(base, root, infos, n - 1);
        let a = extract::with_nodes(base, v, infos, n - 1);
        let e = reread_all(a.extra_nodes);
        let b = DesignV { extra_nodes: e, ..a };
        let x = v[n - 1];
        assert(w[n - 1] == sexp::reread(x));
        assert(steady(x));
        lemma_apart(a, e, x, infos);
        if x is List && sexp::tag_of(x) == "symbol"@ {
            lemma_list(x);
            lemma_read_symbol(b, x, infos);
        } else if sexp::tag_of(x) == "symbol"@ {
            lemma_atom(x);
        } else {
            lemma_read_node(b, x, infos);
        }
        let r = extract::with_node(a, x, infos);
        assert(reread_all(a.extra_nodes.push(x)) =~= e.push(sexp::reread(x)));
    }
}

proof fn lemma_comments(t: SexpV)
    requires
        steady(t),
        t is List,
    ensures
        extract::comments_of(sexp::children_of(sexp::reread(t), "comment"@))
            == extract::comments_of(sexp::children_of(t, "comment"@)),
{
    lemma_list(t);
    lemma_children(t, "comment"@, sexp::items_of(t).len() as int);
    let a = sexp::children_of(t, "comment"@);
    let b = sexp::children_of(sexp::reread(t), "comment"@);
    assert forall|i: int| 0 <= i < a.len() implies extract::text_at(Some(#[trigger] b[i]), 2)
        == extract::text_at(Some(a[i]), 2) by {
        assert(b[i] == sexp::reread(a[i]));
        lemma_text_at(a[i], 2);
    }
    assert(extract::comments_of(b) =~= extract::comments_of(a));
}

proof fn lemma_read_head(root: SexpV)
    requires
        steady(root),
        root is List,
    ensures
        extract::head_of(sexp::reread(root)) == extract::head_of(root),
{
    lemma_child_text(root, "paper"@);
    lemma_child_text(root, "uuid"@);
    lemma_child(root, "title_block"@);
    if let Some(t) = sexp::child_of(root, "title_block"@) {
        lemma_child_text(t, "title"@);
        lemma_child_text(t, "rev"@);
        lemma_child_text(t, "company"@);
        lemma_child_text(t, "date"@);
        lemma_comments(t);
    }
}

/// The symbols of a sheet with what is read in place of what was written.
pub open spec fn reread_named(v: Seq<(Seq<char>, SexpV)>) -> Seq<(Seq<char>, SexpV)> {
    Seq::new(v.len(), |i: int| (v[i].0, sexp::reread(v[i].1)))
}

proof fn lemma_seek_same(
    a: Seq<(Seq<char>, SexpV)>,
    b: Seq<(Seq<char>, SexpV)>,
    k: Seq<char>,
    i: int,
)
    requires
        a.len() == b.len(),
        forall|j: int| 0 <= j < a.len() ==> (#[trigger] a[j]).0 == b[j].0,
    ensures
        crate::order_map::seek(a, k, i) == crate::order_map::seek(b, k, i),
    decreases a.len() - i,
{
    if 0 <= i < a.len() {
        assert(a[i].0 == b[i].0);
        lemma_seek_same(a, b, k, i + 1);
    }
}

proof fn lemma_read_libs(l: SexpV, n: int)
    requires
        steady(l),
        l is List,
        0 <= n <= sexp::children_of(l, "symbol"@).len(),
    ensures
        extract::symbols_of(sexp::children_of(sexp::reread(l), "symbol"@), n) == reread_named(
            extract::symbols_of(sexp::children_of(l, "symbol"@), n),
        ),
    decreases n,
{
    lemma_list(l);
    lemma_children(l, "symbol"@, sexp::items_of(l).len() as int);
    let a = sexp::children_of(l, "symbol"@);
    let b = sexp::children_of(sexp::reread(l), "symbol"@);
    if n > 0 {
        lemma_read_libs(l, n - 1);
        assert(b[n - 1] == sexp::reread(a[n - 1]));
        lemma_text_at(a[n - 1], 1);
        let s = extract::symbols_of(a, n - 1);
        let t = reread_named(s);
        let k = extract::text_of(Some(a[n - 1]));
        lemma_seek_same(t, s, k, 0);
        crate::order_map::lemma_seek(s, k, 0);
        assert(crate::order_map::put(t, k, b[n - 1]) =~= reread_named(
            crate::order_map::put(s, k, a[n - 1]),
        ));
    } else {
        assert(extract::symbols_of(b, n) =~= reread_named(extract::symbols_of(a, n)));
    }
}

/// A sheet that is written and read again is the same design; symbols and nodes that are kept as
/// they stand are the same but for how their bare tokens look.
pub proof fn written_sheets_hold_their_design(
    root: SexpV,
    infos: OrderMap<Arc<SymbolInfo>>,
    tail: Seq<char>,
)
    requires
        root is List,
        steady(root),
    ensures
        sexp::loaded(sexp::dumped(root, sexp::tabs(0)) + tail) == Some(sexp::reread(root)),
        ({
            let d = extract::design_of(root, infos);
            extract::design_of(sexp::reread(root), infos) == (DesignV {
                extra_nodes: reread_all(d.extra_nodes),
                lib_symbols: reread_named(d.lib_symbols),
                ..d
            })
        }),
{
    lemma_legible(root);
    assert(sexp::all_space(sexp::tabs(0)));
    sexp::written_lists_are_read(root, sexp::tabs(0), tail);
    lemma_list(root);
    lemma_read_head(root);
    lemma_child(root, "lib_symbols"@);
    let n = sexp::items_of(root).len() as int;
    let a = extract::lib_symbols_of(root);
    let b = extract::lib_symbols_of(sexp::reread(root));
    if let Some(l) = sexp::child_of(root, "lib_symbols"@) {
        lemma_list(l);
        lemma_children(l, "symbol"@, sexp::items_of(l).len() as int);
        lemma_read_libs(l, sexp::children_of(l, "symbol"@).len() as int);
    }
    assert(b =~= reread_named(a));
    let h = extract::head_of(root);
    let base = DesignV { lib_symbols: b, ..h };
    lemma_read_items(base, root, infos, n);
    lemma_libs_apart(h, a, b, sexp::items_of(root), infos, n);
}

/// The symbols of a design do not bear on what is taken in.
proof fn lemma_libs_apart(
    h: DesignV,
    a: Seq<(Seq<char>, SexpV)>,
    b: Seq<(Seq<char>, SexpV)>,
    v: Seq<SexpV>,
    infos: OrderMap<Arc<SymbolInfo>>,
    n: int,
)
    ensures
        ({
            let x = extract::with_nodes(DesignV { lib_symbols: a, ..h }, v, infos, n);
            extract::with_nodes(DesignV { lib_symbols: b, ..h }, v, infos, n) == (DesignV {
                lib_symbols: b,
                ..x
            }) && x.lib_symbols == a
        }),
    decreases n,
{
    if n > 1 {
        lemma_libs_apart(h, a, b, v, infos, n - 1);
        let x = extract::with_nodes(DesignV { lib_symbols: a, ..h }, v, infos, n - 1);
        let y = DesignV { lib_symbols: b, ..x };
        assert(extract::instance_of(y, v[n - 1]) == extract::instance_of(x, v[n - 1]));
    }
}

// ---------------------------------------------------------------- nodes of a written sheet
/// A tag told from the other tags of a sheet: its length and its first two letters.
pub(crate) open spec fn code(t: Seq<char>) -> (nat, char, char) {
    (t.len(), t[0], t[1])
}

pub(crate) proof fn lemma_tags()
    ensures
        code("at"@) == (2nat, 'a', 't'),
        code("xy"@) == (2nat, 'x', 'y'),
        code("pts"@) == (3nat, 'p', 't'),
        code("end"@) == (3nat, 'e', 'n'),
        code("dnp"@) == (3nat, 'd', 'n'),
        code("pin"@) == (3nat, 'p', 'i'),
        code("rev"@) == (3nat, 'r', 'e'),
        code("uuid"@) == (4nat, 'u', 'u'),
        code("fill"@) == (4nat, 'f', 'i'),
        code("text"@) == (4nat, 't', 'e'),
        code("font"@) == (4nat, 'f', 'o'),
        code("size"@) == (4nat, 's', 'i'),
        code("bold"@) == (4nat, 'b', 'o'),
        code("hide"@) == (4nat, 'h', 'i'),
        code("wire"@) == (4nat, 'w', 'i'),
        code("unit"@) == (4nat, 'u', 'n'),
        code("path"@) == (4nat, 'p', 'a'),
        code("date"@) == (4nat, 'd', 'a'),
        code("color"@) == (5nat, 'c', 'o'),
        code("start"@) == (5nat, 's', 't'),
        code("shape"@) == (5nat, 's', 'h'),
        code("label"@) == (5nat, 'l', 'a'),
        code("paper"@) == (5nat, 'p', 'a'),
        code("Value"@) == (5nat, 'V', 'a'),
        code("title"@) == (5nat, 't', 'i'),
        code("stroke"@) == (6nat, 's', 't'),
        code("symbol"@) == (6nat, 's', 'y'),
        code("mirror"@) == (6nat, 'm', 'i'),
        code("lib_id"@) == (6nat, 'l', 'i'),
        code("in_bom"@) == (6nat, 'i', 'n'),
        code("effects"@) == (7nat, 'e', 'f'),
        code("justify"@) == (7nat, 'j', 'u'),
        code("version"@) == (7nat, 'v', 'e'),
        code("project"@) == (7nat, 'p', 'r'),
        code("company"@) == (7nat, 'c', 'o'),
        code("diameter"@) == (8nat, 'd', 'i'),
        code("junction"@) == (8nat, 'j', 'u'),
        code("lib_name"@) == (8nat, 'l', 'i'),
        code("on_board"@) == (8nat, 'o', 'n'),
        code("property"@) == (8nat, 'p', 'r'),
        code("rectangle"@) == (9nat, 'r', 'e'),
        code("generator"@) == (9nat, 'g', 'e'),
        code("instances"@) == (9nat, 'i', 'n'),
        code("Reference"@) == (9nat, 'R', 'e'),
        code("Footprint"@) == (9nat, 'F', 'o'),
        code("Datasheet"@) == (9nat, 'D', 'a'),
        code("no_connect"@) == (10nat, 'n', 'o'),
        code("title_block"@) == (11nat, 't', 'i'),
        code("lib_symbols"@) == (11nat, 'l', 'i'),
        code("Description"@) == (11nat, 'D', 'e'),
        code("global_label"@) == (12nat, 'g', 'l'),
        code("embedded_fonts"@) == (14nat, 'e', 'm'),
        code("sheet_instances"@) == (15nat, 's', 'h'),
        code("exclude_from_sim"@) == (16nat, 'e', 'x'),
        code("generator_version"@) == (17nat, 'g', 'e'),
        code("hierarchical_label"@) == (18nat, 'h', 'i'),
        code("symbol_instances"@) == (16nat, 's', 'y'),
        code("kicad_sch"@) == (9nat, 'k', 'i'),
        code("comment"@) == (7nat, 'c', 'o'),
{
    reveal_strlit("at");
    reveal_strlit("xy");
    reveal_strlit("pts");
    reveal_strlit("end");
    reveal_strlit("dnp");
    reveal_strlit("pin");
    reveal_strlit("rev");
    reveal_strlit("uuid");
    reveal_strlit("fill");
    reveal_strlit("text");
    reveal_strlit("font");
    reveal_strlit("size");
    reveal_strlit("bold");
    reveal_strlit("hide");
    reveal_strlit("wire");
    reveal_strlit("unit");
    reveal_strlit("path");
    reveal_strlit("date");
    reveal_strlit("color");
    reveal_strlit("start");
    reveal_strlit("shape");
    reveal_strlit("label");
    reveal_strlit("paper");
    reveal_strlit("Value");
    reveal_strlit("title");
    reveal_strlit("stroke");
    reveal_strlit("symbol");
    reveal_strlit("mirror");
    reveal_strlit("lib_id");
    reveal_strlit("in_bom");
    reveal_strlit("effects");
    reveal_strlit("justify");
    reveal_strlit("version");
    reveal_strlit("project");
    reveal_strlit("company");
    reveal_strlit("diameter");
    reveal_strlit("junction");
    reveal_strlit("lib_name");
    reveal_strlit("on_board");
    reveal_strlit("property");
    reveal_strlit("rectangle");
    reveal_strlit("generator");
    reveal_strlit("instances");
    reveal_strlit("Reference");
    reveal_strlit("Footprint");
    reveal_strlit("Datasheet");
    reveal_strlit("no_connect");
    reveal_strlit("title_block");
    reveal_strlit("lib_symbols");
    reveal_strlit("Description");
    reveal_strlit("global_label");
    reveal_strlit("embedded_fonts");
    reveal_strlit("sheet_instances");
    reveal_strlit("exclude_from_sim");
    reveal_strlit("generator_version");
    reveal_strlit("hierarchical_label");
    reveal_strlit("symbol_instances");
    reveal_strlit("kicad_sch");
    reveal_strlit("comment");
}

pub(crate) proof fn lemma_child_at(v: Seq<SexpV>, tag: Seq<char>, i: int)
    requires
        1 <= i < v.len(),
        sexp::is_tagged(v[i], tag),
        forall|j: int| 1 <= j < i ==> !sexp::is_tagged(#[trigger] v[j], tag),
    ensures
        sexp::child_of(SexpV::List(v), tag) == Some(v[i]),
{
    lemma_found(v, tag, 1);
    let k = sexp::seek_tag(v, tag, 1);
    if k > i {
        assert(!sexp::is_tagged(v[i], tag));
    }
}

pub(crate) proof fn lemma_no_child(v: Seq<SexpV>, tag: Seq<char>)
    requires
        forall|j: int| 1 <= j < v.len() ==> !sexp::is_tagged(#[trigger] v[j], tag),
    ensures
        sexp::child_of(SexpV::List(v), tag) is None,
{
    lemma_found(v, tag, 1);
}

/// A point that is not too far out to be read.
pub open spec fn within_reach(p: Pt) -> bool {
    -900_000_000_000_000 <= p.x <= 900_000_000_000_000 && -900_000_000_000_000 <= p.y
        <= 900_000_000_000_000
}

pub open spec fn all_within_reach(v: Seq<Pt>) -> bool {
    forall|i: int| 0 <= i < v.len() ==> within_reach(#[trigger] v[i])
}

pub open spec fn readable_text(t: TextV) -> bool {
    within_reach(t.at) && -crate::model::SIZE_MAX <= t.size <= crate::model::SIZE_MAX
}

/// A point is read where it was written.
proof fn lemma_point(tag: Seq<char>, p: Pt)
    requires
        within_reach(p),
    ensures
        extract::xy_of(compile::point_spec(tag, p)) == p,
{
    let v = sexp::items_of(compile::point_spec(tag, p));
    assert(v.len() == 3);
    assert(v[1] == compile::mm(p.x as int));
    assert(v[2] == compile::mm(p.y as int));
}

/// A place is read where it was written, turned as it was.
pub(crate) proof fn lemma_place(p: Pt, rot: int)
    requires
        within_reach(p),
        i32::MIN <= rot <= i32::MAX,
    ensures
        extract::at_of(Some(compile::place_spec(p, rot))) == (p, rot),
{
    let v = sexp::items_of(compile::place_spec(p, rot));
    assert(v.len() == 4);
    assert(v[1] == compile::mm(p.x as int));
    assert(v[2] == compile::mm(p.y as int));
    assert(v[3] == compile::whole_num(rot));
}

proof fn lemma_wire_node(des: DesignV, s: (Pt, Pt), id: Seq<char>)
    requires
        within_reach(s.0),
        within_reach(s.1),
    ensures
        extract::with_wire(des, compile::wire_node(s, id)) == (DesignV {
            wires: des.wires.push(seq![s.0, s.1]),
            wire_uuids: des.wire_uuids.push(id),
            ..des
        }),
{
    lemma_tags();
    let v = sexp::items_of(compile::wire_node(s, id));
    assert(v.len() == 4);
    lemma_child_at(v, "pts"@, 1);
    lemma_child_at(v, "uuid"@, 3);
    let p = v[1];
    let w = sexp::items_of(p);
    assert(w.len() == 3);
    assert(w[1] == compile::point_spec("xy"@, s.0));
    assert(w[2] == compile::point_spec("xy"@, s.1));
    reveal_with_fuel(sexp::tagged, 4);
    assert(sexp::children_of(p, "xy"@) =~= seq![w[1], w[2]]);
    lemma_point("xy"@, s.0);
    lemma_point("xy"@, s.1);
    assert(extract::points_of(seq![w[1], w[2]]) =~= seq![s.0, s.1]);
    assert(sexp::items_of(v[3])[1] == SexpV::Str(id));
}

proof fn lemma_rect_node(des: DesignV, r: RectV, id: Seq<char>)
    requires
        within_reach(r.start),
        within_reach(r.end),
    ensures
        extract::with_rect(des, compile::rect_node(r, id)) == (DesignV {
            rects: des.rects.push(
                RectV { uuid: compile::if_empty(r.uuid, id), ..r },
            ),
            ..des
        }),
{
    lemma_tags();
    let v = sexp::items_of(compile::rect_node(r, id));
    assert(v.len() == 6);
    lemma_child_at(v, "start"@, 1);
    lemma_child_at(v, "end"@, 2);
    lemma_child_at(v, "uuid"@, 5);
    lemma_point("start"@, r.start);
    lemma_point("end"@, r.end);
    assert(sexp::items_of(v[5])[1] == SexpV::Str(compile::if_empty(r.uuid, id)));
}

/// A label as it is read: a local one has no frame, and so the shape that labels have unless they
/// say otherwise.
pub open spec fn read_label(l: LabelV, id: Seq<char>) -> LabelV {
    LabelV {
        uuid: compile::if_empty(l.uuid, id),
        shape: if l.kind == "local"@ {
            "input"@
        } else {
            l.shape
        },
        justify: spaced(
            compile::if_empty(l.justify, compile::label_justify_spec(l.kind, l.rot)),
        ),
        ..l
    }
}

/// Whether a label is of a kind that there is, and stands where it can be read.
pub open spec fn plain_label(l: LabelV) -> bool {
    &&& within_reach(l.at)
    &&& i32::MIN <= l.rot <= i32::MAX
    &&& l.kind == "local"@ || l.kind == "global"@ || l.kind == "hier"@
}

proof fn lemma_label_node(des: DesignV, l: LabelV, id: Seq<char>)
    requires
        plain_label(l),
    ensures
        extract::with_label(des, compile::label_node(l, id), l.kind) == (DesignV {
            labels: des.labels.push(read_label(l, id)),
            ..des
        }),
{
    lemma_tags();
    let v = sexp::items_of(compile::label_node(l, id));
    let k = if l.kind == "local"@ {
        2int
    } else {
        3
    };
    assert(v.len() == k + 3);
    assert(v[1] == SexpV::Str(l.text));
    assert(v[k] == compile::place_spec(l.at, l.rot));
    let j = compile::if_empty(l.justify, compile::label_justify_spec(l.kind, l.rot));
    assert(v[k + 1] == compile::font_spec(127_000, false, false, j));
    assert(v[k + 2] == compile::uuid_spec(compile::if_empty(l.uuid, id)));
    if k == 3 {
        assert(v[2] == compile::flag_spec("shape"@, l.shape));
        lemma_child_at(v, "shape"@, 2);
        assert(sexp::items_of(v[2])[1] == SexpV::Sym(l.shape));
    } else {
        lemma_no_child(v, "shape"@);
    }
    lemma_child_at(v, "at"@, k);
    lemma_child_at(v, "effects"@, k + 1);
    lemma_child_at(v, "uuid"@, k + 2);
    lemma_place(l.at, l.rot);
    lemma_spaced(127_000, false, false, j);
    assert(sexp::items_of(v[k + 2])[1] == SexpV::Str(compile::if_empty(l.uuid, id)));
}

/// A text as it is read.
pub open spec fn read_text(t: TextV, id: Seq<char>) -> TextV {
    let j = spaced(t.justify);
    TextV {
        uuid: compile::if_empty(t.uuid, id),
        justify: if j.len() == 0 {
            "left bottom"@
        } else {
            j
        },
        ..t
    }
}

proof fn lemma_font(size: int, bold: bool, justify: Seq<char>)
    requires
        -crate::model::SIZE_MAX <= size <= crate::model::SIZE_MAX,
    ensures
        ({
            let e = compile::font_spec(size, bold, false, justify);
            let f = sexp::child_of(e, "font"@);
            let s = extract::child_in(f, "size"@);
            let b = extract::child_in(f, "bold"@);
            &&& f is Some
            &&& s is Some && sexp::items_of(s->0).len() > 1 && sexp::number_in(
                sexp::items_of(s->0)[1],
            ) == Some(10 * size)
            &&& (b is Some && extract::text_of(b) == "yes"@) == bold
        }),
{
    lemma_tags();
    let e = compile::font_spec(size, bold, false, justify);
    let v = sexp::items_of(e);
    assert(sexp::is_tagged(v[1], "font"@));
    lemma_child_at(v, "font"@, 1);
    let w = sexp::items_of(v[1]);
    assert(w[1] == compile::tagged("size"@, seq![compile::mm(size), compile::mm(size)]));
    lemma_child_at(w, "size"@, 1);
    assert(sexp::items_of(w[1])[1] == compile::mm(size));
    if bold {
        assert(w[2] == compile::tagged("bold"@, seq![SexpV::Sym("yes"@)]));
        lemma_child_at(w, "bold"@, 2);
        assert(sexp::items_of(w[2])[1] == SexpV::Sym("yes"@));
    } else {
        assert(w.len() == 2);
        lemma_no_child(w, "bold"@);
    }
}

proof fn lemma_text_node(des: DesignV, t: TextV, id: Seq<char>)
    requires
        readable_text(t),
        i32::MIN <= t.rot <= i32::MAX,
    ensures
        extract::with_text(des, compile::text_node_spec(t, id)) == (DesignV {
            texts: des.texts.push(read_text(t, id)),
            ..des
        }),
{
    lemma_tags();
    let v = sexp::items_of(compile::text_node_spec(t, id));
    assert(v.len() == 6);
    assert(v[1] == SexpV::Str(t.text));
    assert(v[4] == compile::font_spec(t.size, t.bold, false, t.justify));
    lemma_child_at(v, "at"@, 3);
    lemma_child_at(v, "effects"@, 4);
    lemma_child_at(v, "uuid"@, 5);
    lemma_place(t.at, t.rot);
    lemma_font(t.size, t.bold, t.justify);
    lemma_spaced(t.size, t.bold, false, t.justify);
    assert(sexp::items_of(v[5])[1] == SexpV::Str(compile::if_empty(t.uuid, id)));
    assert(extract::units_of(10 * t.size) == t.size);
}

proof fn lemma_mark_node(p: Pt, id: Seq<char>)
    requires
        within_reach(p),
    ensures
        sexp::child_of(compile::nc_node(p, id), "at"@) == Some(compile::point_spec("at"@, p)),
        sexp::child_of(compile::junction_node(p, id), "at"@) == Some(compile::point_spec("at"@, p)),
        extract::xy_of(compile::point_spec("at"@, p)) == p,
{
    lemma_tags();
    let v = sexp::items_of(compile::nc_node(p, id));
    let w = sexp::items_of(compile::junction_node(p, id));
    lemma_child_at(v, "at"@, 1);
    lemma_child_at(w, "at"@, 1);
    lemma_point("at"@, p);
}

// ---------------------------------------------------------------- runs of nodes
proof fn lemma_junctions(
    d: DesignV,
    v: Seq<SexpV>,
    infos: OrderMap<Arc<SymbolInfo>>,
    a: int,
    b: int,
    ps: Seq<Pt>,
    ids: Seq<Seq<char>>,
)
    requires
        1 <= a <= b <= v.len(),
        all_within_reach(ps),
        b - a <= ps.len(),
        forall|i: int| a <= i < b ==> #[trigger] v[i] == compile::junction_node(ps[i - a], ids[i - a]),
    ensures
        ({
            let x = extract::with_nodes(d, v, infos, a);
            extract::with_nodes(d, v, infos, b) == (DesignV {
                junctions: x.junctions + ps.take(b - a),
                ..x
            })
        }),
    decreases b - a,
{
    let x = extract::with_nodes(d, v, infos, a);
    if a < b {
        lemma_junctions(d, v, infos, a, b - 1, ps, ids);
        let k = b - 1 - a;
        lemma_tags();
        assert(v[b - 1] == compile::junction_node(ps[k], ids[k]));
        assert(within_reach(ps[k]));
        lemma_mark_node(ps[k], ids[k]);
        assert(sexp::tag_of(v[b - 1]) == "junction"@);
        assert(ps.take(k + 1) =~= ps.take(k).push(ps[k]));
        assert(x.junctions + ps.take(k + 1) =~= (x.junctions + ps.take(k)).push(ps[k]));
    } else {
        assert(x.junctions + ps.take(0) =~= x.junctions);
    }
}

proof fn lemma_marks(
    d: DesignV,
    v: Seq<SexpV>,
    infos: OrderMap<Arc<SymbolInfo>>,
    a: int,
    b: int,
    ps: Seq<Pt>,
    ids: Seq<Seq<char>>,
)
    requires
        1 <= a <= b <= v.len(),
        all_within_reach(ps),
        b - a <= ps.len(),
        forall|i: int| a <= i < b ==> #[trigger] v[i] == compile::nc_node(ps[i - a], ids[i - a]),
    ensures
        ({
            let x = extract::with_nodes(d, v, infos, a);
            extract::with_nodes(d, v, infos, b) == (DesignV { nc: x.nc + ps.take(b - a), ..x })
        }),
    decreases b - a,
{
    let x = extract::with_nodes(d, v, infos, a);
    if a < b {
        lemma_marks(d, v, infos, a, b - 1, ps, ids);
        let k = b - 1 - a;
        lemma_tags();
        assert(v[b - 1] == compile::nc_node(ps[k], ids[k]));
        assert(within_reach(ps[k]));
        lemma_mark_node(ps[k], ids[k]);
        assert(sexp::tag_of(v[b - 1]) == "no_connect"@);
        assert(ps.take(k + 1) =~= ps.take(k).push(ps[k]));
        assert(x.nc + ps.take(k + 1) =~= (x.nc + ps.take(k)).push(ps[k]));
    } else {
        assert(x.nc + ps.take(0) =~= x.nc);
    }
}

proof fn lemma_wires(
    d: DesignV,
    v: Seq<SexpV>,
    infos: OrderMap<Arc<SymbolInfo>>,
    a: int,
    b: int,
    ps: Seq<Seq<Pt>>,
    ids: Seq<Seq<char>>,
)
    requires
        1 <= a <= b <= v.len(),
        b - a <= ps.len(),
        b - a <= ids.len(),
        forall|i: int|
            0 <= i < ps.len() ==> (#[trigger] ps[i]).len() == 2 && all_within_reach(ps[i]),
        forall|i: int|
            a <= i < b ==> #[trigger] v[i] == compile::wire_node(
                (ps[i - a][0], ps[i - a][1]),
                ids[i - a],
            ),
    ensures
        ({
            let x = extract::with_nodes(d, v, infos, a);
            extract::with_nodes(d, v, infos, b) == (DesignV {
                wires: x.wires + ps.take(b - a),
                wire_uuids: x.wire_uuids + ids.take(b - a),
                ..x
            })
        }),
    decreases b - a,
{
    let x = extract::with_nodes(d, v, infos, a);
    if a < b {
        lemma_wires(d, v, infos, a, b - 1, ps, ids);
        let y = extract::with_nodes(d, v, infos, b - 1);
        let k = b - 1 - a;
        lemma_tags();
        assert(v[b - 1] == compile::wire_node((ps[k][0], ps[k][1]), ids[k]));
        assert(ps[k].len() == 2);
        assert(within_reach(ps[k][0]) && within_reach(ps[k][1]));
        lemma_wire_node(y, (ps[k][0], ps[k][1]), ids[k]);
        assert(sexp::tag_of(v[b - 1]) == "wire"@);
        assert(seq![ps[k][0], ps[k][1]] =~= ps[k]);
        assert(x.wires + ps.take(k + 1) =~= (x.wires + ps.take(k)).push(ps[k]));
        assert(x.wire_uuids + ids.take(k + 1) =~= (x.wire_uuids + ids.take(k)).push(ids[k]));
    } else {
        assert(x.wires + ps.take(0) =~= x.wires);
        assert(x.wire_uuids + ids.take(0) =~= x.wire_uuids);
    }
}

proof fn lemma_rects(
    d: DesignV,
    v: Seq<SexpV>,
    infos: OrderMap<Arc<SymbolInfo>>,
    a: int,
    b: int,
    ps: Seq<RectV>,
    ids: Seq<Seq<char>>,
)
    requires
        1 <= a <= b <= v.len(),
        b - a <= ps.len(),
        forall|i: int|
            0 <= i < ps.len() ==> within_reach((#[trigger] ps[i]).start)
                && within_reach(ps[i].end),
        forall|i: int| a <= i < b ==> #[trigger] v[i] == compile::rect_node(ps[i - a], ids[i - a]),
    ensures
        ({
            let x = extract::with_nodes(d, v, infos, a);
            extract::with_nodes(d, v, infos, b) == (DesignV {
                rects: x.rects + Seq::new(
                    (b - a) as nat,
                    |i: int| (RectV { uuid: compile::if_empty(ps[i].uuid, ids[i]), ..ps[i] }),
                ),
                ..x
            })
        }),
    decreases b - a,
{
    let x = extract::with_nodes(d, v, infos, a);
    let f = |i: int| (RectV { uuid: compile::if_empty(ps[i].uuid, ids[i]), ..ps[i] });
    if a < b {
        lemma_rects(d, v, infos, a, b - 1, ps, ids);
        let y = extract::with_nodes(d, v, infos, b - 1);
        let k = b - 1 - a;
        lemma_tags();
        assert(v[b - 1] == compile::rect_node(ps[k], ids[k]));
        assert(within_reach(ps[k].start));
        lemma_rect_node(y, ps[k], ids[k]);
        assert(sexp::tag_of(v[b - 1]) == "rectangle"@);
        assert(x.rects + Seq::new((k + 1) as nat, f) =~= (x.rects + Seq::new(k as nat, f)).push(
            f(k),
        ));
    } else {
        assert(x.rects + Seq::new(0, f) =~= x.rects);
    }
}

proof fn lemma_texts(
    d: DesignV,
    v: Seq<SexpV>,
    infos: OrderMap<Arc<SymbolInfo>>,
    a: int,
    b: int,
    ps: Seq<TextV>,
    ids: Seq<Seq<char>>,
)
    requires
        1 <= a <= b <= v.len(),
        b - a <= ps.len(),
        forall|i: int|
            0 <= i < ps.len() ==> readable_text(#[trigger] ps[i]) && i32::MIN <= ps[i].rot
                <= i32::MAX,
        forall|i: int|
            a <= i < b ==> #[trigger] v[i] == compile::text_node_spec(ps[i - a], ids[i - a]),
    ensures
        ({
            let x = extract::with_nodes(d, v, infos, a);
            extract::with_nodes(d, v, infos, b) == (DesignV {
                texts: x.texts + Seq::new((b - a) as nat, |i: int| read_text(ps[i], ids[i])),
                ..x
            })
        }),
    decreases b - a,
{
    let x = extract::with_nodes(d, v, infos, a);
    let f = |i: int| read_text(ps[i], ids[i]);
    if a < b {
        lemma_texts(d, v, infos, a, b - 1, ps, ids);
        let y = extract::with_nodes(d, v, infos, b - 1);
        let k = b - 1 - a;
        lemma_tags();
        assert(v[b - 1] == compile::text_node_spec(ps[k], ids[k]));
        assert(readable_text(ps[k]));
        lemma_text_node(y, ps[k], ids[k]);
        assert(sexp::tag_of(v[b - 1]) == "text"@);
        assert(x.texts + Seq::new((k + 1) as nat, f) =~= (x.texts + Seq::new(k as nat, f)).push(
            f(k),
        ));
    } else {
        assert(x.texts + Seq::new(0, f) =~= x.texts);
    }
}

proof fn lemma_labels(
    d: DesignV,
    v: Seq<SexpV>,
    infos: OrderMap<Arc<SymbolInfo>>,
    a: int,
    b: int,
    ps: Seq<LabelV>,
    ids: Seq<Seq<char>>,
)
    requires
        1 <= a <= b <= v.len(),
        b - a <= ps.len(),
        forall|i: int| 0 <= i < ps.len() ==> plain_label(#[trigger] ps[i]),
        forall|i: int| a <= i < b ==> #[trigger] v[i] == compile::label_node(ps[i - a], ids[i - a]),
    ensures
        ({
            let x = extract::with_nodes(d, v, infos, a);
            extract::with_nodes(d, v, infos, b) == (DesignV {
                labels: x.labels + Seq::new((b - a) as nat, |i: int| read_label(ps[i], ids[i])),
                ..x
            })
        }),
    decreases b - a,
{
    let x = extract::with_nodes(d, v, infos, a);
    let f = |i: int| read_label(ps[i], ids[i]);
    if a < b {
        lemma_labels(d, v, infos, a, b - 1, ps, ids);
        let y = extract::with_nodes(d, v, infos, b - 1);
        let k = b - 1 - a;
        lemma_tags();
        assert(v[b - 1] == compile::label_node(ps[k], ids[k]));
        assert(plain_label(ps[k]));
        lemma_label_node(y, ps[k], ids[k]);
        assert(sexp::tag_of(v[b - 1]) == compile::label_tag(ps[k].kind));
        lemma_kinds();
        assert(x.labels + Seq::new((k + 1) as nat, f) =~= (x.labels + Seq::new(k as nat, f)).push(
            f(k),
        ));
    } else {
        assert(x.labels + Seq::new(0, f) =~= x.labels);
    }
}

proof fn lemma_kinds()
    ensures
        "local"@ != "global"@,
        "local"@ != "hier"@,
        "global"@ != "hier"@,
{
    reveal_strlit("local");
    reveal_strlit("global");
    reveal_strlit("hier");
    assert("local"@.len() == 5 && "global"@.len() == 6 && "hier"@.len() == 4);
}

/// Whether a node is of a kind that is kept as it stands.
pub open spec fn kept_node(n: SexpV) -> bool {
    let t = sexp::tag_of(n);
    &&& n is List
    &&& t != "symbol"@ && t != "wire"@ && t != "label"@ && t != "global_label"@
    &&& t != "hierarchical_label"@ && t != "no_connect"@ && t != "junction"@ && t != "text"@
    &&& t != "rectangle"@ && !extract::is_known(t)
}

proof fn lemma_kept(
    d: DesignV,
    v: Seq<SexpV>,
    infos: OrderMap<Arc<SymbolInfo>>,
    a: int,
    b: int,
    ps: Seq<SexpV>,
)
    requires
        1 <= a <= b <= v.len(),
        b - a <= ps.len(),
        forall|i: int| 0 <= i < ps.len() ==> kept_node(#[trigger] ps[i]),
        forall|i: int| a <= i < b ==> #[trigger] v[i] == ps[i - a],
    ensures
        ({
            let x = extract::with_nodes(d, v, infos, a);
            extract::with_nodes(d, v, infos, b) == (DesignV {
                extra_nodes: x.extra_nodes + ps.take(b - a),
                ..x
            })
        }),
    decreases b - a,
{
    let x = extract::with_nodes(d, v, infos, a);
    if a < b {
        lemma_kept(d, v, infos, a, b - 1, ps);
        let k = b - 1 - a;
        assert(v[b - 1] == ps[k]);
        assert(kept_node(ps[k]));
        assert(x.extra_nodes + ps.take(k + 1) =~= (x.extra_nodes + ps.take(k)).push(ps[k]));
    } else {
        assert(x.extra_nodes + ps.take(0) =~= x.extra_nodes);
    }
}

proof fn lemma_known(
    d: DesignV,
    v: Seq<SexpV>,
    infos: OrderMap<Arc<SymbolInfo>>,
    a: int,
    b: int,
)
    requires
        1 <= a <= b <= v.len(),
        forall|i: int| a <= i < b ==> extract::is_known(sexp::tag_of(#[trigger] v[i])),
    ensures
        extract::with_nodes(d, v, infos, b) == extract::with_nodes(d, v, infos, a),
    decreases b - a,
{
    if a < b {
        lemma_known(d, v, infos, a, b - 1);
        lemma_tags();
        assert(extract::is_known(sexp::tag_of(v[b - 1])));
    }
}

// ---------------------------------------------------------------- symbols
#[verifier::rlimit(40)]
proof fn lemma_parts(
    d: DesignV,
    v: Seq<SexpV>,
    infos: OrderMap<Arc<SymbolInfo>>,
    a: int,
    b: int,
    project: Seq<char>,
    path: Seq<char>,
    ps: Seq<WrittenPart>,
)
    requires
        1 <= a <= b <= v.len(),
        b - a <= ps.len(),
        path.len() > 0,
        forall|i: int| 0 <= i < ps.len() ==> plain_part((#[trigger] ps[i]).c.p, infos),
        forall|i: int|
            a <= i < b ==> #[trigger] v[i] == part_written(ps[i - a], project, path) && steady(v[i]),
    ensures
        ({
            let x = extract::with_nodes(d, v, infos, a);
            let y = DesignV {
                parts: x.parts + Seq::new((b - a) as nat, |i: int| part_read(ps[i])),
                ..x
            };
            extract::with_nodes(d, v, infos, b) == (if a < b {
                found_on(y, project, path)
            } else {
                x
            })
        }),
    decreases b - a,
{
    let x = extract::with_nodes(d, v, infos, a);
    let f = |i: int| part_read(ps[i]);
    if a < b {
        lemma_parts(d, v, infos, a, b - 1, project, path, ps);
        let w = extract::with_nodes(d, v, infos, b - 1);
        let k = b - 1 - a;
        assert(v[b - 1] == part_written(ps[k], project, path));
        assert(plain_part(ps[k].c.p, infos));
        lemma_part_node(w, infos, ps[k], project, path);
        assert(x.parts + Seq::new((k + 1) as nat, f) =~= (x.parts + Seq::new(k as nat, f)).push(
            f(k),
        ));
        assert(x.parts + Seq::new(0, f) =~= x.parts);
    }
}

#[verifier::rlimit(40)]
proof fn lemma_powers(
    d: DesignV,
    v: Seq<SexpV>,
    infos: OrderMap<Arc<SymbolInfo>>,
    a: int,
    b: int,
    on: DesignV,
    ps: Seq<WrittenPower>,
)
    requires
        1 <= a <= b <= v.len(),
        b - a <= ps.len(),
        on.sheet_path_uuid.len() > 0,
        forall|i: int| 0 <= i < ps.len() ==> plain_power(#[trigger] ps[i], infos),
        forall|i: int|
            a <= i < b ==> #[trigger] v[i] == power_written(ps[i - a], on) && steady(v[i]),
    ensures
        ({
            let x = extract::with_nodes(d, v, infos, a);
            let y = DesignV {
                power: x.power + Seq::new((b - a) as nat, |i: int| power_read(ps[i], infos)),
                ..x
            };
            extract::with_nodes(d, v, infos, b) == (if a < b {
                found_on(y, on.project, on.sheet_path_uuid)
            } else {
                x
            })
        }),
    decreases b - a,
{
    let x = extract::with_nodes(d, v, infos, a);
    let f = |i: int| power_read(ps[i], infos);
    if a < b {
        lemma_powers(d, v, infos, a, b - 1, on, ps);
        let w = extract::with_nodes(d, v, infos, b - 1);
        let k = b - 1 - a;
        assert(v[b - 1] == power_written(ps[k], on));
        assert(plain_power(ps[k], infos));
        lemma_power_node(w, infos, ps[k], on);
        assert(x.power + Seq::new((k + 1) as nat, f) =~= (x.power + Seq::new(k as nat, f)).push(
            f(k),
        ));
        assert(x.power + Seq::new(0, f) =~= x.power);
    }
}

// ---------------------------------------------------------------- the sheet
/// The pieces of wire that a sheet shows, each between two points.
pub open spec fn pieces_read(des: DesignV) -> Seq<Seq<Pt>> {
    let s = group::all_segs(des.wires, des.wires.len() as int);
    Seq::new(s.len(), |i: int| seq![s[i].0, s[i].1])
}

/// The identifiers of the pieces of wire: the first piece of a wire bears the wire's own.
pub open spec fn piece_ids(des: DesignV, ids: compile::IdsV) -> Seq<Seq<char>> {
    let n = des.wires.len() as int;
    Seq::new(
        group::all_segs(des.wires, n).len(),
        |i: int|
            compile::if_empty(
                compile::kept_ids(des.wires, des.wire_uuids, n)[i],
                ids.wires[i],
            ),
    )
}

/// Whether a design is such as a sheet can hold: it lies within reach, and what is kept as it stands
/// is of no kind that is read.
pub open spec fn sheet_like(des: DesignV) -> bool {
    &&& all_within_reach(des.nc)
    &&& forall|i: int| 0 <= i < des.wires.len() ==> all_within_reach(#[trigger] des.wires[i])
    &&& forall|i: int|
        0 <= i < des.rects.len() ==> within_reach((#[trigger] des.rects[i]).start) && within_reach(
            des.rects[i].end,
        )
    &&& forall|i: int|
        0 <= i < des.texts.len() ==> readable_text(#[trigger] des.texts[i]) && i32::MIN
            <= des.texts[i].rot <= i32::MAX
    &&& forall|i: int| 0 <= i < des.labels.len() ==> plain_label(#[trigger] des.labels[i])
    &&& forall|i: int| 0 <= i < des.extra_nodes.len() ==> kept_node(#[trigger] des.extra_nodes[i])
}

proof fn lemma_segs_reach(w: Seq<Pt>, n: int)
    requires
        all_within_reach(w),
        n < w.len(),
    ensures
        forall|i: int|
            0 <= i < group::segs_of(w, n).len() ==> within_reach(
                (#[trigger] group::segs_of(w, n)[i]).0,
            ) && within_reach(group::segs_of(w, n)[i].1),
    decreases n,
{
    if n > 0 {
        lemma_segs_reach(w, n - 1);
        let a = group::segs_of(w, n - 1);
        let s = group::segs_of(w, n);
        assert forall|i: int| 0 <= i < s.len() implies within_reach((#[trigger] s[i]).0)
            && within_reach(s[i].1) by {
            if i < a.len() {
                assert(s[i] == a[i]);
            } else {
                assert(within_reach(w[n - 1]) && within_reach(w[n]));
            }
        }
    }
}

pub(crate) proof fn lemma_all_segs_reach(ws: Seq<Seq<Pt>>, n: int)
    requires
        n <= ws.len(),
        forall|i: int| 0 <= i < ws.len() ==> all_within_reach(#[trigger] ws[i]),
    ensures
        forall|i: int|
            0 <= i < group::all_segs(ws, n).len() ==> within_reach(
                (#[trigger] group::all_segs(ws, n)[i]).0,
            ) && within_reach(group::all_segs(ws, n)[i].1),
    decreases n,
{
    if n > 0 {
        lemma_all_segs_reach(ws, n - 1);
        assert(all_within_reach(ws[n - 1]));
        lemma_segs_reach(ws[n - 1], ws[n - 1].len() - 1);
        let a = group::all_segs(ws, n - 1);
        let b = group::segs_of(ws[n - 1], ws[n - 1].len() - 1);
        let s = group::all_segs(ws, n);
        assert forall|i: int| 0 <= i < s.len() implies within_reach((#[trigger] s[i]).0)
            && within_reach(s[i].1) by {
            if i < a.len() {
                assert(s[i] == a[i]);
            } else {
                assert(s[i] == b[i - a.len()]);
            }
        }
    }
}

/// The head of a sheet is of kinds that are read elsewhere.
proof fn lemma_head_known(des: DesignV)
    ensures
        forall|i: int|
            1 <= i < compile::sheet_head(des).len() ==> extract::is_known(
                sexp::tag_of(#[trigger] compile::sheet_head(des)[i]),
            ),
        6 <= compile::sheet_head(des).len() <= 7,
{
    lemma_tags();
}

/// The comments of a title block as they are read: the first nine, not too long.
pub open spec fn comments_read(v: Seq<Seq<char>>) -> Seq<Seq<char>> {
    Seq::new(
        crate::geom::lo(v.len() as int, 9) as nat,
        |i: int| compile::cut_to(v[i], 75),
    )
}

/// The symbols of a sheet by name, in the order of their names.
pub open spec fn libs_by_name(libs: Seq<(Seq<char>, SexpV)>) -> Seq<(Seq<char>, SexpV)> {
    let o = crate::order::by_name(
        Seq::new(libs.len(), |i: int| 0i64),
        Seq::new(libs.len(), |i: int| libs[i].0),
    );
    Seq::new(libs.len(), |i: int| libs[o[i]])
}

/// Whether each symbol is kept under the name that its node bears, and no name occurs twice.
pub open spec fn libs_named(libs: Seq<(Seq<char>, SexpV)>) -> bool {
    &&& crate::order_map::keys_once(libs)
    &&& forall|i: int|
        0 <= i < libs.len() ==> sexp::is_tagged((#[trigger] libs[i]).1, "symbol"@)
            && extract::text_of(Some(libs[i].1)) == libs[i].0
}

/// The symbols that stand on a sheet.
pub struct SymbolsV {
    pub parts: Seq<WrittenPart>,
    pub powers: Seq<WrittenPower>,
}

/// The design that is read of a sheet: all that is drawn, in order and under the identifiers that it
/// bears; parts and power symbols; the title block, cut to what it holds; the symbols in use; and
/// the nodes that are kept as they stand, up to how their bare tokens look.
pub open spec fn sheet_read(
    des: DesignV,
    libs: Seq<(Seq<char>, SexpV)>,
    junctions: Seq<Pt>,
    ids: compile::IdsV,
    s: SymbolsV,
    infos: OrderMap<Arc<SymbolInfo>>,
) -> DesignV {
    let bare = s.parts.len() == 0 && s.powers.len() == 0;
    DesignV {
        title: compile::cut_to(des.title, 70),
        paper: des.paper,
        rev: des.rev,
        company: des.company,
        date: des.date,
        comments: comments_read(des.comments),
        parts: Seq::new(s.parts.len(), |i: int| part_read(s.parts[i])),
        power: Seq::new(s.powers.len(), |i: int| power_read(s.powers[i], infos)),
        wires: pieces_read(des),
        labels: Seq::new(des.labels.len(), |i: int| read_label(des.labels[i], ids.labels[i])),
        nc: des.nc,
        junctions,
        texts: Seq::new(des.texts.len(), |i: int| read_text(des.texts[i], ids.texts[i])),
        rects: Seq::new(
            des.rects.len(),
            |i: int|
                (RectV { uuid: compile::if_empty(des.rects[i].uuid, ids.rects[i]), ..des.rects[i] }),
        ),
        lib_symbols: reread_named(libs_by_name(libs)),
        extra_nodes: reread_all(des.extra_nodes),
        wire_uuids: piece_ids(des, ids),
        uuid: des.uuid,
        sheet_path_uuid: if bare {
            Seq::empty()
        } else {
            des.sheet_path_uuid
        },
        project: if bare {
            "schagent"@
        } else {
            des.project
        },
    }
}

/// What is drawn on a sheet, as it is read.
spec fn drawn_read(x: DesignV, des: DesignV, junctions: Seq<Pt>, ids: compile::IdsV) -> DesignV {
    DesignV {
        junctions: x.junctions + junctions,
        nc: x.nc + des.nc,
        wires: x.wires + pieces_read(des),
        wire_uuids: x.wire_uuids + piece_ids(des, ids),
        rects: x.rects + Seq::new(
            des.rects.len(),
            |i: int|
                (RectV { uuid: compile::if_empty(des.rects[i].uuid, ids.rects[i]), ..des.rects[i] }),
        ),
        texts: x.texts + Seq::new(
            des.texts.len(),
            |i: int| read_text(des.texts[i], ids.texts[i]),
        ),
        labels: x.labels + Seq::new(
            des.labels.len(),
            |i: int| read_label(des.labels[i], ids.labels[i]),
        ),
        ..x
    }
}

#[verifier::spinoff_prover]
#[verifier::rlimit(60)]
proof fn lemma_drawn(
    d: DesignV,
    v: Seq<SexpV>,
    infos: OrderMap<Arc<SymbolInfo>>,
    c0: int,
    des: DesignV,
    junctions: Seq<Pt>,
    ids: compile::IdsV,
)
    requires
        sheet_like(des),
        all_within_reach(junctions),
        compile::ids_fit(ids, des, junctions.len() as int),
        1 <= c0,
        c0 + compile::drawn_nodes(des, junctions, ids).len() <= v.len(),
        forall|i: int|
            0 <= i < compile::drawn_nodes(des, junctions, ids).len() ==> #[trigger] v[c0 + i]
                == compile::drawn_nodes(des, junctions, ids)[i],
    ensures
        extract::with_nodes(
            d,
            v,
            infos,
            c0 + compile::drawn_nodes(des, junctions, ids).len(),
        ) == drawn_read(extract::with_nodes(d, v, infos, c0), des, junctions, ids),
{
    let w = compile::drawn_nodes(des, junctions, ids);
    let segs = group::all_segs(des.wires, des.wires.len() as int);
    let n = segs.len() as int;
    lemma_all_segs_reach(des.wires, des.wires.len() as int);
    let ws = pieces_read(des);
    let wi = piece_ids(des, ids);
    let c1 = c0 + junctions.len();
    let c2 = c1 + des.nc.len();
    let c3 = c2 + n;
    let c4 = c3 + des.rects.len();
    let c5 = c4 + des.texts.len();
    let c6 = c5 + des.labels.len();
    assert(w.len() == c6 - c0);
    assert forall|i: int| c0 <= i < c6 implies #[trigger] v[i] == w[i - c0] by {
        assert(v[c0 + (i - c0)] == w[i - c0]);
    }
    lemma_junctions(d, v, infos, c0, c1, junctions, ids.junctions);
    lemma_marks(d, v, infos, c1, c2, des.nc, ids.nc);
    assert forall|i: int| 0 <= i < ws.len() implies (#[trigger] ws[i]).len() == 2
        && all_within_reach(ws[i]) by {
        assert(within_reach(segs[i].0) && within_reach(segs[i].1));
    }
    assert forall|i: int| c2 <= i < c3 implies #[trigger] v[i] == compile::wire_node(
        (ws[i - c2][0], ws[i - c2][1]),
        wi[i - c2],
    ) by {
        assert(v[i] == w[i - c0]);
        assert(v[i] == compile::segment_node(des, ids, i - c2));
        assert(ws[i - c2] == seq![segs[i - c2].0, segs[i - c2].1]);
    }
    lemma_wires(d, v, infos, c2, c3, ws, wi);
    lemma_rects(d, v, infos, c3, c4, des.rects, ids.rects);
    lemma_texts(d, v, infos, c4, c5, des.texts, ids.texts);
    lemma_labels(d, v, infos, c5, c6, des.labels, ids.labels);
    assert(junctions.take(junctions.len() as int) =~= junctions);
    assert(des.nc.take(des.nc.len() as int) =~= des.nc);
    assert(ws.take(n) =~= ws);
    assert(wi.take(n) =~= wi);
}

/// Where the nodes of a sheet stand.
#[verifier::rlimit(40)]
pub(crate) proof fn lemma_spots(
    des: DesignV,
    libs: Seq<(Seq<char>, SexpV)>,
    junctions: Seq<Pt>,
    symbols: Seq<SexpV>,
    ids: compile::IdsV,
)
    ensures
        ({
            let v = sexp::items_of(compile::sheet_spec(des, libs, junctions, symbols, ids));
            let w = compile::drawn_nodes(des, junctions, ids);
            let c0 = compile::sheet_head(des).len() as int + 1;
            let c6 = c0 + w.len();
            let c7 = c6 + symbols.len();
            let c8 = c7 + des.extra_nodes.len();
            &&& v.len() == c8 + 2
            &&& forall|i: int| 0 <= i < c0 - 1 ==> #[trigger] v[i] == compile::sheet_head(des)[i]
            &&& v[c0 - 1] == compile::tagged("lib_symbols"@, compile::sorted_libs(libs))
            &&& forall|i: int| 1 <= i < c0 ==> extract::is_known(sexp::tag_of(#[trigger] v[i]))
            &&& forall|i: int| 0 <= i < w.len() ==> #[trigger] v[c0 + i] == w[i]
            &&& forall|i: int| c6 <= i < c7 ==> #[trigger] v[i] == symbols[i - c6]
            &&& forall|i: int| c7 <= i < c8 ==> #[trigger] v[i] == des.extra_nodes[i - c7]
            &&& forall|i: int| c8 <= i < c8 + 2 ==> extract::is_known(
                sexp::tag_of(#[trigger] v[i]),
            ) && sexp::tag_of(v[i]) != "title_block"@
        }),
{
    lemma_tags();
    let v = sexp::items_of(compile::sheet_spec(des, libs, junctions, symbols, ids));
    let w = compile::drawn_nodes(des, junctions, ids);
    let hd = compile::sheet_head(des);
    let z = compile::tail_nodes();
    lemma_head_known(des);
    let c0 = hd.len() as int + 1;
    let c8 = c0 + w.len() + symbols.len() + des.extra_nodes.len();
    assert forall|i: int| 1 <= i < c0 implies extract::is_known(sexp::tag_of(#[trigger] v[i])) by {
        if i < hd.len() {
            assert(v[i] == hd[i]);
        } else {
            assert(v[i] == compile::tagged("lib_symbols"@, compile::sorted_libs(libs)));
        }
    }
    assert forall|i: int| c8 <= i < c8 + 2 implies extract::is_known(
        sexp::tag_of(#[trigger] v[i]),
    ) && sexp::tag_of(v[i]) != "title_block"@ by {
        assert(v[i] == z[i - c8]);
    }
}

/// No node that is drawn is a title block.
proof fn lemma_drawn_tags(des: DesignV, junctions: Seq<Pt>, ids: compile::IdsV)
    ensures
        forall|i: int|
            0 <= i < compile::drawn_nodes(des, junctions, ids).len() ==> sexp::tag_of(
                #[trigger] compile::drawn_nodes(des, junctions, ids)[i],
            ) != "title_block"@,
{
    lemma_tags();
}

/// Where the entries of the title block begin: title, date, revision, company and comments.
spec fn entry_starts(des: DesignV) -> (int, int, int, int) {
    let i1 = 1 + compile::head_text("title"@, compile::cut_to(des.title, 70)).len() as int;
    let i2 = i1 + compile::head_text("date"@, des.date).len();
    let i3 = i2 + compile::head_text("rev"@, des.rev).len();
    (i1, i2, i3, i3 + compile::head_text("company"@, des.company).len())
}

spec fn entry_tag(des: DesignV, j: int) -> Seq<char> {
    let (i1, i2, i3, i4) = entry_starts(des);
    if j < i1 {
        "title"@
    } else if j < i2 {
        "date"@
    } else if j < i3 {
        "rev"@
    } else if j < i4 {
        "company"@
    } else {
        "comment"@
    }
}

#[verifier::rlimit(40)]
proof fn lemma_entries(des: DesignV)
    ensures
        ({
            let v = sexp::items_of(compile::tagged("title_block"@, compile::title_entries(des)));
            let (i1, i2, i3, i4) = entry_starts(des);
            let e = compile::comment_nodes(des.comments);
            &&& v.len() == i4 + e.len()
            &&& forall|j: int|
                1 <= j < v.len() ==> sexp::tag_of(#[trigger] v[j]) == entry_tag(des, j) && v[j] is List
            &&& i1 > 1 ==> v[1] == compile::head_text("title"@, compile::cut_to(des.title, 70))[0]
            &&& i2 > i1 ==> v[i1] == compile::head_text("date"@, des.date)[0]
            &&& i3 > i2 ==> v[i2] == compile::head_text("rev"@, des.rev)[0]
            &&& i4 > i3 ==> v[i3] == compile::head_text("company"@, des.company)[0]
            &&& forall|j: int| i4 <= j < v.len() ==> #[trigger] v[j] == e[j - i4]
        }),
{
    let t = compile::tagged("title_block"@, compile::title_entries(des));
    let v = sexp::items_of(t);
    let a = compile::head_text("title"@, compile::cut_to(des.title, 70));
    let b = compile::head_text("date"@, des.date);
    let c = compile::head_text("rev"@, des.rev);
    let d = compile::head_text("company"@, des.company);
    let e = compile::comment_nodes(des.comments);
    let (i1, i2, i3, i4) = entry_starts(des);
    assert(v =~= seq![SexpV::Sym("title_block"@)] + a + b + c + d + e);
    assert forall|j: int| 1 <= j < v.len() implies sexp::tag_of(#[trigger] v[j]) == entry_tag(
        des,
        j,
    ) && v[j] is List by {
        if j < i1 {
            assert(v[j] == a[j - 1]);
        } else if j < i2 {
            assert(v[j] == b[j - i1]);
        } else if j < i3 {
            assert(v[j] == c[j - i2]);
        } else if j < i4 {
            assert(v[j] == d[j - i3]);
        } else {
            assert(v[j] == e[j - i4]);
        }
    }
}

proof fn lemma_entry_tags()
    ensures
        "title"@ != "date"@ && "title"@ != "rev"@ && "title"@ != "company"@ && "title"@ != "comment"@,
        "date"@ != "rev"@ && "date"@ != "company"@ && "date"@ != "comment"@,
        "rev"@ != "company"@ && "rev"@ != "comment"@ && "company"@ != "comment"@,
{
    lemma_tags();
    reveal_strlit("company");
    reveal_strlit("comment");
    assert("company"@[3] == 'p' && "comment"@[3] == 'm');
}

/// The entries of the title block as they are read.
#[verifier::rlimit(40)]
proof fn lemma_title(des: DesignV)
    ensures
        ({
            let t = compile::tagged("title_block"@, compile::title_entries(des));
            &&& extract::text_of(sexp::child_of(t, "title"@)) == compile::cut_to(des.title, 70)
            &&& extract::text_of(sexp::child_of(t, "date"@)) == des.date
            &&& extract::text_of(sexp::child_of(t, "rev"@)) == des.rev
            &&& extract::text_of(sexp::child_of(t, "company"@)) == des.company
            &&& extract::comments_of(sexp::children_of(t, "comment"@)) == comments_read(
                des.comments,
            )
        }),
{
    lemma_entry_tags();
    lemma_entries(des);
    let t = compile::tagged("title_block"@, compile::title_entries(des));
    let title = compile::cut_to(des.title, 70);
    let v = sexp::items_of(t);
    let (i1, i2, i3, i4) = entry_starts(des);
    let e = compile::comment_nodes(des.comments);
    lemma_entry(v, "title"@, title, 1, compile::head_text("title"@, title));
    lemma_entry(v, "date"@, des.date, i1, compile::head_text("date"@, des.date));
    lemma_entry(v, "rev"@, des.rev, i2, compile::head_text("rev"@, des.rev));
    lemma_entry(v, "company"@, des.company, i3, compile::head_text("company"@, des.company));
    lemma_tail_tagged(v, "comment"@, i4, v.len() as int);
    let w = sexp::children_of(t, "comment"@);
    assert(w =~= e);
    assert forall|i: int| 0 <= i < w.len() implies extract::text_at(Some(#[trigger] w[i]), 2)
        == comments_read(des.comments)[i] by {
        let x = sexp::items_of(w[i]);
        assert(x[2] == SexpV::Str(compile::cut_to(des.comments[i], 75)));
    }
    assert(extract::comments_of(w) =~= comments_read(des.comments));
}

/// An entry that stands at its place, or nowhere where it is empty.
proof fn lemma_entry(v: Seq<SexpV>, tag: Seq<char>, t: Seq<char>, i: int, e: Seq<SexpV>)
    requires
        1 <= i <= v.len(),
        e == compile::head_text(tag, t),
        i + e.len() <= v.len(),
        e.len() > 0 ==> v[i] == e[0],
        forall|j: int| 1 <= j < i ==> sexp::tag_of(#[trigger] v[j]) != tag,
        forall|j: int| i + e.len() <= j < v.len() ==> sexp::tag_of(#[trigger] v[j]) != tag,
    ensures
        extract::text_of(sexp::child_of(SexpV::List(v), tag)) == t,
{
    if t.len() == 0 {
        lemma_no_child(v, tag);
        assert(t =~= Seq::empty());
    } else {
        assert(v[i] == compile::tagged(tag, seq![SexpV::Str(t)]));
        lemma_child_at(v, tag, i);
        assert(sexp::items_of(v[i])[1] == SexpV::Str(t));
    }
}

proof fn lemma_tail_tagged(v: Seq<SexpV>, tag: Seq<char>, a: int, n: int)
    requires
        1 <= a <= n <= v.len(),
        forall|i: int| 1 <= i < a ==> sexp::tag_of(#[trigger] v[i]) != tag,
        forall|i: int| a <= i < n ==> sexp::is_tagged(#[trigger] v[i], tag),
    ensures
        sexp::tagged(v, tag, n) == v.subrange(a, n),
    decreases n,
{
    if n > a {
        lemma_tail_tagged(v, tag, a, n - 1);
        assert(sexp::is_tagged(v[n - 1], tag));
        assert(v.subrange(a, n) =~= v.subrange(a, n - 1).push(v[n - 1]));
    } else {
        if n > 1 {
            assert(sexp::tag_of(v[n - 1]) != tag);
            lemma_tail_tagged(v, tag, a - 1, n - 1);
        }
        assert(v.subrange(a, n) =~= Seq::empty());
    }
}

/// The head of a sheet as it is read.
#[verifier::spinoff_prover]
#[verifier::rlimit(40)]
proof fn lemma_head(
    des: DesignV,
    libs: Seq<(Seq<char>, SexpV)>,
    junctions: Seq<Pt>,
    symbols: Seq<SexpV>,
    ids: compile::IdsV,
)
    requires
        forall|i: int| 0 <= i < symbols.len() ==> sexp::is_tagged(#[trigger] symbols[i], "symbol"@),
        forall|i: int| 0 <= i < des.extra_nodes.len() ==> kept_node(#[trigger] des.extra_nodes[i]),
    ensures
        extract::head_of(compile::sheet_spec(des, libs, junctions, symbols, ids)) == (DesignV {
            uuid: des.uuid,
            paper: des.paper,
            title: compile::cut_to(des.title, 70),
            rev: des.rev,
            company: des.company,
            date: des.date,
            comments: comments_read(des.comments),
            ..DesignV::empty()
        }),
        sexp::child_of(compile::sheet_spec(des, libs, junctions, symbols, ids), "lib_symbols"@)
            == Some(compile::tagged("lib_symbols"@, compile::sorted_libs(libs))),
{
    lemma_tags();
    let root = compile::sheet_spec(des, libs, junctions, symbols, ids);
    let v = sexp::items_of(root);
    let hd = compile::sheet_head(des);
    lemma_head_known(des);
    lemma_spots(des, libs, junctions, symbols, ids);
    let h = hd.len() as int;
    assert(v[1] == hd[1] && v[2] == hd[2] && v[3] == hd[3] && v[4] == hd[4] && v[5] == hd[5]);
    assert(v[4] == compile::uuid_spec(des.uuid));
    assert(v[5] == compile::tagged("paper"@, seq![SexpV::Str(des.paper)]));
    lemma_child_at(v, "uuid"@, 4);
    lemma_child_at(v, "paper"@, 5);
    assert(sexp::items_of(v[4])[1] == SexpV::Str(des.uuid));
    assert(sexp::items_of(v[5])[1] == SexpV::Str(des.paper));
    let t = compile::title_entries(des);
    lemma_title(des);
    if t.len() > 0 {
        assert(h == 7);
        assert(v[6] == hd[6]);
        assert(v[6] == compile::tagged("title_block"@, t));
        lemma_child_at(v, "title_block"@, 6);
    } else {
        assert(h == 6);
        let w = compile::drawn_nodes(des, junctions, ids);
        lemma_drawn_tags(des, junctions, ids);
        let c0 = h + 1;
        let c6 = c0 + w.len();
        let c7 = c6 + symbols.len();
        let c8 = c7 + des.extra_nodes.len();
        assert forall|j: int| 1 <= j < v.len() implies !sexp::is_tagged(
            #[trigger] v[j],
            "title_block"@,
        ) by {
            if j >= c8 {
            } else if j >= c7 {
                assert(v[j] == des.extra_nodes[j - c7]);
                assert(kept_node(des.extra_nodes[j - c7]));
            } else if j >= c6 {
                assert(v[j] == symbols[j - c6]);
            } else if j >= c0 {
                assert(v[c0 + (j - c0)] == w[j - c0]);
            }
        }
        lemma_no_child(v, "title_block"@);
        let a = compile::head_text("title"@, compile::cut_to(des.title, 70));
        let b = compile::head_text("date"@, des.date);
        let c = compile::head_text("rev"@, des.rev);
        let d = compile::head_text("company"@, des.company);
        let e = compile::comment_nodes(des.comments);
        assert(t.len() == a.len() + b.len() + c.len() + d.len() + e.len());
        assert(compile::cut_to(des.title, 70) =~= Seq::empty());
        assert(des.date =~= Seq::empty());
        assert(des.rev =~= Seq::empty());
        assert(des.company =~= Seq::empty());
        assert(comments_read(des.comments) =~= Seq::empty());
    }
    assert forall|j: int| 1 <= j < h implies !sexp::is_tagged(#[trigger] v[j], "lib_symbols"@) by {
        assert(v[j] == hd[j]);
    }
    lemma_child_at(v, "lib_symbols"@, h);
}

/// The symbols of a sheet as they are read.
#[verifier::rlimit(40)]
proof fn lemma_libs(libs: Seq<(Seq<char>, SexpV)>)
    requires
        libs_named(libs),
    ensures
        ({
            let l = compile::tagged("lib_symbols"@, compile::sorted_libs(libs));
            let v = sexp::children_of(l, "symbol"@);
            extract::symbols_of(v, v.len() as int) == libs_by_name(libs)
        }),
{
    let l = compile::tagged("lib_symbols"@, compile::sorted_libs(libs));
    let w = sexp::items_of(l);
    let s = compile::sorted_libs(libs);
    let b = libs_by_name(libs);
    let names = Seq::new(libs.len(), |i: int| libs[i].0);
    let counts = Seq::new(libs.len(), |i: int| 0i64);
    let o = crate::order::by_name(counts, names);
    crate::order::ranked_lists_all(
        |a: int, b: int|
            counts[a] < counts[b] || (counts[a] == counts[b] && text::before(names[a], names[b])),
        names.len() as int,
    );
    assert forall|i: int| 1 <= i < w.len() implies sexp::is_tagged(#[trigger] w[i], "symbol"@) by {
        assert(w[i] == s[i - 1]);
        assert(0 <= o[i - 1] < libs.len());
        assert(sexp::is_tagged(libs[o[i - 1]].1, "symbol"@));
    }
    lemma_tail_tagged(w, "symbol"@, 1, w.len() as int);
    let v = sexp::children_of(l, "symbol"@);
    assert(v =~= s);
    assert forall|i: int| 0 <= i < v.len() implies extract::text_of(Some(#[trigger] v[i])) == b[i].0
        && v[i] == b[i].1 by {
        assert(0 <= o[i] < libs.len());
        assert(sexp::is_tagged(libs[o[i]].1, "symbol"@));
    }
    assert forall|i: int, j: int| 0 <= i < j < b.len() implies (#[trigger] b[i]).0 != (
    #[trigger] b[j]).0 by {
        assert(o[i] != o[j]);
        assert(0 <= o[i] < libs.len() && 0 <= o[j] < libs.len());
        if o[i] < o[j] {
            assert(libs[o[i]].0 != libs[o[j]].0);
        } else {
            assert(libs[o[j]].0 != libs[o[i]].0);
        }
    }
    lemma_named(v, b, v.len() as int);
    assert(b.take(v.len() as int) =~= b);
}

proof fn lemma_named(v: Seq<SexpV>, b: Seq<(Seq<char>, SexpV)>, n: int)
    requires
        0 <= n <= v.len(),
        v.len() == b.len(),
        crate::order_map::keys_once(b),
        forall|i: int|
            0 <= i < v.len() ==> extract::text_of(Some(#[trigger] v[i])) == b[i].0 && v[i]
                == b[i].1,
    ensures
        extract::symbols_of(v, n) == b.take(n),
    decreases n,
{
    if n > 0 {
        lemma_named(v, b, n - 1);
        let m = b.take(n - 1);
        crate::order_map::lemma_seek(m, b[n - 1].0, 0);
        assert(v[n - 1] == b[n - 1].1);
        assert(b.take(n) =~= m.push(b[n - 1]));
        let i = crate::order_map::seek(m, b[n - 1].0, 0);
        if i < m.len() {
            assert(b[i].0 != b[n - 1].0);
        }
    } else {
        assert(b.take(0) =~= Seq::empty());
    }
}

/// The nodes of the symbols that stand on a sheet: parts, then power symbols.
pub open spec fn symbol_nodes(s: SymbolsV, on: DesignV) -> Seq<SexpV> {
    Seq::new(
        s.parts.len(),
        |i: int| part_written(s.parts[i], on.project, on.sheet_path_uuid),
    ) + Seq::new(s.powers.len(), |i: int| power_written(s.powers[i], on))
}

/// Whether each symbol is read as what it is.
pub open spec fn symbols_plain(s: SymbolsV, infos: OrderMap<Arc<SymbolInfo>>) -> bool {
    &&& forall|i: int| 0 <= i < s.parts.len() ==> plain_part((#[trigger] s.parts[i]).c.p, infos)
    &&& forall|i: int| 0 <= i < s.powers.len() ==> plain_power(#[trigger] s.powers[i], infos)
}

/// The design of the node of a sheet.
#[verifier::spinoff_prover]
#[verifier::rlimit(60)]
proof fn lemma_sheet(
    des: DesignV,
    libs: Seq<(Seq<char>, SexpV)>,
    junctions: Seq<Pt>,
    ids: compile::IdsV,
    s: SymbolsV,
    infos: OrderMap<Arc<SymbolInfo>>,
)
    requires
        sheet_like(des),
        des.sheet_path_uuid.len() > 0,
        all_within_reach(junctions),
        compile::ids_fit(ids, des, junctions.len() as int),
        libs_named(libs),
        symbols_plain(s, infos),
        steady(compile::sheet_spec(des, libs, junctions, symbol_nodes(s, des), ids)),
    ensures
        ({
            let e = extract::design_of(
                compile::sheet_spec(des, libs, junctions, symbol_nodes(s, des), ids),
                infos,
            );
            (DesignV {
                extra_nodes: reread_all(e.extra_nodes),
                lib_symbols: reread_named(e.lib_symbols),
                ..e
            }) == sheet_read(des, libs, junctions, ids, s, infos)
        }),
{
    let symbols = symbol_nodes(s, des);
    let root = compile::sheet_spec(des, libs, junctions, symbols, ids);
    let v = sexp::items_of(root);
    let w = compile::drawn_nodes(des, junctions, ids);
    lemma_head_known(des);
    lemma_spots(des, libs, junctions, symbols, ids);
    let c0 = compile::sheet_head(des).len() as int + 1;
    let c6 = c0 + w.len();
    let m = c6 + s.parts.len();
    let c7 = c6 + symbols.len();
    let c8 = c7 + des.extra_nodes.len();
    assert forall|i: int| 0 <= i < symbols.len() implies sexp::is_tagged(
        #[trigger] symbols[i],
        "symbol"@,
    ) && steady(symbols[i]) by {
        assert(v[c6 + i] == symbols[i]);
        crate::readsym::lemma_steady_items(v, c6 + i);
        if i < s.parts.len() {
            assert(plain_part(s.parts[i].c.p, infos));
            lemma_part_node(des, infos, s.parts[i], des.project, des.sheet_path_uuid);
        } else {
            assert(plain_power(s.powers[i - s.parts.len()], infos));
            lemma_power_node(des, infos, s.powers[i - s.parts.len()], des);
        }
    }
    lemma_head(des, libs, junctions, symbols, ids);
    lemma_libs(libs);
    let d = DesignV { lib_symbols: extract::lib_symbols_of(root), ..extract::head_of(root) };
    lemma_known(d, v, infos, 1, c0);
    lemma_drawn(d, v, infos, c0, des, junctions, ids);
    assert forall|i: int| c6 <= i < m implies #[trigger] v[i] == part_written(
        s.parts[i - c6],
        des.project,
        des.sheet_path_uuid,
    ) && steady(v[i]) by {
        assert(v[i] == symbols[i - c6]);
    }
    lemma_parts(d, v, infos, c6, m, des.project, des.sheet_path_uuid, s.parts);
    assert forall|i: int| m <= i < c7 implies #[trigger] v[i] == power_written(
        s.powers[i - m],
        des,
    ) && steady(v[i]) by {
        assert(v[i] == symbols[i - c6]);
    }
    lemma_powers(d, v, infos, m, c7, des, s.powers);
    lemma_kept(d, v, infos, c7, c8, des.extra_nodes);
    lemma_known(d, v, infos, c8, c8 + 2);
    assert(extract::with_nodes(d, v, infos, c0) == d);
    let e = extract::with_nodes(d, v, infos, c8 + 2);
    let r = sheet_read(des, libs, junctions, ids, s, infos);
    assert(des.extra_nodes.take(des.extra_nodes.len() as int) =~= des.extra_nodes);
    assert(e.junctions =~= r.junctions);
    assert(e.nc =~= r.nc);
    assert(e.wires =~= r.wires);
    assert(e.wire_uuids =~= r.wire_uuids);
    assert(e.extra_nodes =~= des.extra_nodes);
    assert(e.rects =~= r.rects);
    assert(e.texts =~= r.texts);
    assert(e.labels =~= r.labels);
    assert(e.parts =~= r.parts);
    assert(e.power =~= r.power);
}

/// A sheet that is written and read again is the design that it was written from: wires, marks,
/// frames, texts, labels, parts and power symbols, each under the identifier that it bears on the
/// sheet, the title block, the symbols in use and the nodes that are kept as they stand. Nothing
/// else is read.
pub proof fn a_written_sheet_shows_its_design(
    des: DesignV,
    libs: Seq<(Seq<char>, SexpV)>,
    junctions: Seq<Pt>,
    ids: compile::IdsV,
    s: SymbolsV,
    infos: OrderMap<Arc<SymbolInfo>>,
)
    requires
        sheet_like(des),
        des.sheet_path_uuid.len() > 0,
        all_within_reach(junctions),
        compile::ids_fit(ids, des, junctions.len() as int),
        libs_named(libs),
        symbols_plain(s, infos),
        steady(compile::sheet_spec(des, libs, junctions, symbol_nodes(s, des), ids)),
    ensures
        ({
            let out = sexp::dumped(
                compile::sheet_spec(des, libs, junctions, symbol_nodes(s, des), ids),
                sexp::tabs(0),
            ) + "\n"@;
            sexp::loaded(out) is Some && extract::design_of(sexp::loaded(out)->0, infos)
                == sheet_read(des, libs, junctions, ids, s, infos)
        }),
{
    let root = compile::sheet_spec(des, libs, junctions, symbol_nodes(s, des), ids);
    written_sheets_hold_their_design(root, infos, "\n"@);
    lemma_sheet(des, libs, junctions, ids, s, infos);
}

} // verus!
