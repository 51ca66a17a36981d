//! The build pipeline: references are resolved, the design is compiled, and the sheet is checked.
use crate::check;
use crate::check::Checker;
use crate::compile;
use crate::compile::{compile_design, Compiler, Shelf, StateV};
use crate::json;
use crate::json::{Json, JsonV};
use crate::model::{Design, DesignV};
use crate::model_json;
use crate::model_json::{design_from_json, normalize_json};
use crate::netlist;
use crate::pinref;
use crate::pinref::{resolve_pin_refs, POINT_MAX};
use crate::report;
use crate::report::{netlist_map, netlist_text};
use crate::text;
use vstd::prelude::*;

verus! {

/// What one build gives.
pub struct Built {
    pub issues: Vec<String>,
    pub warnings: Vec<String>,
    pub nets: Vec<(String, Vec<String>)>,
    pub netlist_text: String,
    /// The design after references were resolved and points moved to the half grid.
    pub resolved: Json,
    pub design: Design,
    /// The sheet, where nothing stood in its way.
    pub sheet: Option<String>,
}

/// The plain design with its references resolved.
pub open spec fn resolution(raw: JsonV, shelf: Shelf) -> pinref::ResolvedV {
    let d = model_json::normalized(raw);
    pinref::resolved_refs(d, pinref::design_table(d, shelf.index, shelf.own))
}

/// The design that is compiled.
pub open spec fn meant_design(raw: JsonV, base: Option<DesignV>, shelf: Shelf) -> DesignV {
    model_json::design_from(JsonV::Obj(resolution(raw, shelf).d), base)
}

/// Texts and counts of the design are of a size that can be compiled.
pub open spec fn buildable(raw: JsonV, base: Option<DesignV>, shelf: Shelf) -> bool {
    let d = meant_design(raw, base, shelf);
    &&& d.power.len() <= 0x10_0000
    &&& forall|i: int| 0 <= i < d.parts.len() ==> compile::part_texts_ok(#[trigger] d.parts[i])
}

/// The shelf describes the symbols that the design brings.
pub open spec fn shelf_fits(base: Option<DesignV>, shelf: Shelf) -> bool {
    shelf.covers(
        match base {
            Some(b) => b.lib_symbols,
            None => Seq::empty(),
        },
    )
}

pub open spec fn limit() -> int {
    80
}

/// What a build of a compiled design says: errors where there are any, else what the checks find.
pub open spec fn build_says(
    b: Built,
    errors: Seq<Seq<char>>,
    l: check::Lookup,
    sheet: Seq<char>,
) -> bool {
    let all = errors + l.st.errors;
    if all.len() > 0 {
        &&& text::views(b.issues@) == all
        &&& b.warnings@.len() == 0
        &&& b.nets@.len() == 0
        &&& b.netlist_text@.len() == 0
        &&& b.sheet is None
    } else {
        &&& text::views(b.issues@) == check::issues_of(l)
        &&& text::views(b.warnings@) == check::warnings_of(l)
        &&& netlist::nets_v(b.nets@) == report::nets_by_name(check::nets_on(l).nets)
        &&& b.netlist_text@ == report::netlist_as_text(check::nets_on(l).nets, limit())
        &&& b.sheet is Some && b.sheet->0@ == sheet
    }
}

/// A build of a design: it is compiled, with some identifiers, and says what there is to say.
pub open spec fn built(
    raw: JsonV,
    base: Option<DesignV>,
    shelf: Shelf,
    b: Built,
    st: StateV,
    sheet: Seq<char>,
) -> bool {
    &&& b.resolved@ == JsonV::Obj(resolution(raw, shelf).d)
    &&& compile::compiled_anew(meant_design(raw, base, shelf), shelf, b.design@, st, sheet)
    &&& build_says(
        b,
        resolution(raw, shelf).errors,
        check::Lookup { st, des: b.design@, shelf },
        sheet,
    )
}

proof fn lemma_wires_led(v: Seq<JsonV>, n: int)
    ensures
        forall|i: int|
            0 <= i < model_json::wires_from(v, n).len() ==> (#[trigger] model_json::wires_from(
                v,
                n,
            )[i]).len() > 0,
    decreases n,
{
    if n > 0 {
        lemma_wires_led(v, n - 1);
        let w = model_json::wires_from(v, n);
        let u = model_json::wires_from(v, n - 1);
        assert forall|i: int| 0 <= i < w.len() implies (#[trigger] w[i]).len() > 0 by {
            if i < u.len() {
                assert(w[i] == u[i]);
            }
        }
    }
}

/// The plain design with its references resolved, what is wrong with them, and the design to
/// compile.
fn prepare(raw: &Json, base: Option<&Design>, shelf: &Shelf) -> (r: (Json, Vec<String>, Design))
    requires
        json::within(raw@, POINT_MAX as int),
        base is Some ==> base->0@.ok(),
        shelf_fits(model_json::design_v(base), *shelf),
    ensures
        r.0@ == JsonV::Obj(resolution(raw@, *shelf).d),
        text::views(r.1@) == resolution(raw@, *shelf).errors,
        r.2@ == meant_design(raw@, model_json::design_v(base), *shelf),
        r.2@.ok(),
        check::wires_led(r.2@),
        shelf.covers(r.2@.lib_symbols),
{
    proof {
        json::lemma_within_ok(raw@, POINT_MAX as int);
        model_json::lemma_normalized_within(raw@, POINT_MAX as int);
        json::lemma_within_obj(model_json::normalized(raw@), POINT_MAX as int);
    }
    let mut d = normalize_json(raw);
    let errs = resolve_pin_refs(&mut d, &shelf.index, &shelf.own);
    let des = design_from_json(&d, base);
    proof {
        let w = model_json::list_at(model_json::normalized(d@), "wires"@);
        lemma_wires_led(w, w.len() as int);
    }
    (d, errs, des)
}

fn copy_texts(v: &Vec<String>) -> (r: Vec<String>)
    ensures
        text::views(r@) == text::views(v@),
{
    let mut r: Vec<String> = Vec::new();
    let mut i: usize = 0;
    while i < v.len()
        invariant
            i <= v@.len(),
            r@.len() == i,
            forall|k: int| 0 <= k < i ==> (#[trigger] r@[k])@ == v@[k]@,
        decreases v@.len() - i,
    {
        r.push(v[i].clone());
        i += 1;
    }
    assert(text::views(r@) =~= text::views(v@));
    r
}

/// Says what there is to say of a compiled design.
fn finish(sheet: String, comp: Compiler, errs: Vec<String>, d: Json) -> (r: Built)
    requires
        comp.wf(),
        check::wires_led(comp.des@),
    ensures
        r.resolved@ == d@,
        r.design@ == comp.des@,
        build_says(r, text::views(errs@), comp.lookup(), sheet@),
        report::tidy(netlist::nets_v(r.nets@)),
{
    let ghost l = comp.lookup();
    let ghost ev = text::views(errs@);
    let ghost cv = text::views(comp.errors@);
    let mut errs = errs;
    let mut more = copy_texts(&comp.errors);
    errs.append(&mut more);
    assert(text::views(errs@) =~= ev + cv);
    assert(text::views(errs@).len() == errs@.len());
    assert(l.st.errors == cv);
    if errs.len() > 0 {
        Built {
            issues: errs,
            warnings: Vec::new(),
            nets: Vec::new(),
            netlist_text: String::new(),
            resolved: d,
            design: comp.des,
            sheet: None,
        }
    } else {
        let mut c = Checker::new(comp);
        c.run();
        assert(text::views(c.issues@) =~= check::issues_of(l));
        assert(text::views(c.warnings@) =~= check::warnings_of(l));
        let nets = netlist_map(&c.nets);
        let list = netlist_text(&c.nets, 80);
        Built {
            issues: c.issues,
            warnings: c.warnings,
            nets,
            netlist_text: list,
            resolved: d,
            design: c.comp.des,
            sheet: Some(sheet),
        }
    }
}

proof fn lemma_compiling_keeps_wires(
    des0: DesignV,
    shelf: Shelf,
    des: DesignV,
    st: StateV,
    out: Seq<char>,
)
    requires
        compile::compiled_anew(des0, shelf, des, st, out),
    ensures
        des.wires == des0.wires,
{
}

/// Resolves pin references, compiles a design and checks the sheet. References that cannot be
/// resolved and unknown symbols come back as issues, and there is no sheet then.
pub fn build(raw: &Json, base: Option<&Design>, shelf: Shelf) -> (r: Built)
    requires
        json::within(raw@, POINT_MAX as int),
        base is Some ==> base->0@.ok(),
        shelf_fits(model_json::design_v(base), shelf),
        buildable(raw@, model_json::design_v(base), shelf),
    ensures
        exists|st: StateV, sheet: Seq<char>| #[trigger]
            built(raw@, model_json::design_v(base), shelf, r, st, sheet),
        report::tidy(netlist::nets_v(r.nets@)),
{
    let ghost bv = model_json::design_v(base);
    let ghost sh = shelf;
    let (d, errs, des) = prepare(raw, base, &shelf);
    let ghost dv = des@;
    let (sheet, comp) = compile_design(des, shelf);
    let ghost st = comp.state();
    let ghost out = sheet@;
    proof {
        lemma_compiling_keeps_wires(dv, sh, comp.des@, st, out);
        assert(comp.lookup() == (check::Lookup { st, des: comp.des@, shelf: sh }));
    }
    let r = finish(sheet, comp, errs, d);
    proof {
        assert(built(raw@, bv, sh, r, st, out));
    }
    r
}

} // verus!
