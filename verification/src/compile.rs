//! Writes a [`Design`] as the text of a schematic file.
//!
//! Symbols are embedded, reference and value texts placed clear of wires and power symbols, and
//! junctions inferred.
use crate::engine;
use crate::extract;
use crate::geo::is_gnd;
use crate::geo;
use crate::geom;
use crate::geom::{BBox, Pt};
use crate::group;
use crate::ids;
use crate::json;
use crate::json::entry;
use crate::model;
use crate::model::{new_uuid, Design, DesignV, Label, LabelV, Part, PartV, Power, PowerV};
use crate::number;
use crate::number::round_to;
use crate::order::order_by_name;
use crate::order_map;
use crate::order_map::OrderMap;
use crate::place_text;
use crate::place_text::{
    from_anchor, library_anchor, swap_lr, Around, AroundV, At, AtV, PairV, Placer, TextCtx,
};
use crate::sexp;
use crate::sexp::{dumps, find_named, Sexp, SexpV};
use crate::symlib;
use crate::symlib::{mirror_of, rot_point, Pin, SymbolIndex, SymbolInfo, TEXT_MAX};
use crate::text;
use crate::text::{concat3, decimal_u64, same, split};
use std::sync::Arc;
use vstd::prelude::*;

verus! {

/// Version of the file format.
pub const VERSION: i64 = 20250114;

/// A point rounded to two decimals of a millimetre.
#[derive(Debug, Clone, Copy, PartialEq, Eq, Hash, PartialOrd, Ord, Structural)]
pub struct Key(pub i64, pub i64);

pub open spec fn key_spec(p: Pt) -> Key {
    Key(
        (number::rounded(p.x as int, 1000) / 1000) as i64,
        (number::rounded(p.y as int, 1000) / 1000) as i64,
    )
}

pub open spec fn key_ok(k: Key) -> bool {
    -1_200_000_000_000 <= k.0 <= 1_200_000_000_000 && -1_200_000_000_000 <= k.1
        <= 1_200_000_000_000
}

fn hundredths(v: i64) -> (r: i64)
    requires
        -2_200_000_000_000_000 <= v <= 2_200_000_000_000_000,
    ensures
        r == (number::rounded(v as int, 1000) / 1000) as i64,
        -1_150_000_000_000_000 <= v <= 1_150_000_000_000_000 ==> -1_200_000_000_000 <= r
            <= 1_200_000_000_000,
{
    let m: i64 = round_to(v, 1000);
    if m >= 0 {
        m / 1000
    } else {
        proof {
            let a = geom::mag(v as int);
            let q = a / 1000;
            assert(m == -(q * 1000) || m == -((q + 1) * 1000));
        }
        -((-m) / 1000)
    }
}

impl Key {
    pub fn of(p: Pt) -> (k: Key)
        requires
            -1_150_000_000_000_000 <= p.x <= 1_150_000_000_000_000,
            -1_150_000_000_000_000 <= p.y <= 1_150_000_000_000_000,
        ensures
            k == key_spec(p),
            key_ok(k),
    {
        Key(hundredths(p.x), hundredths(p.y))
    }

    /// The key of a point that may lie beyond the sheet.
    pub fn around(p: Pt) -> (k: Key)
        requires
            around_sheet(p.x as int, p.y as int),
        ensures
            k == key_spec(p),
    {
        Key(hundredths(p.x), hundredths(p.y))
    }

    pub open spec fn point(&self) -> Pt {
        Pt { x: (self.0 * 1000) as i64, y: (self.1 * 1000) as i64 }
    }

    pub fn xy(self) -> (p: Pt)
        requires
            key_ok(self),
        ensures
            p == self.point(),
    {
        Pt { x: self.0 * 1000, y: self.1 * 1000 }
    }
}

/// Whether a net is drawn with a ground symbol.
pub fn ground_like(net: &str) -> (r: bool)
    ensures
        r == geo::gnd_spec(net@),
{
    is_gnd(net)
}

// ---------------------------------------------------------------- nodes

pub open spec fn tagged(tag: Seq<char>, rest: Seq<SexpV>) -> SexpV {
    SexpV::List(seq![SexpV::Sym(tag)] + rest)
}

/// A coordinate as it is written, in millimetres.
pub open spec fn mm(v: int) -> SexpV {
    SexpV::Dec(10 * v)
}

pub open spec fn whole_num(v: int) -> SexpV {
    SexpV::Dec(1_000_000 * v)
}

pub open spec fn syms(v: Seq<Seq<char>>) -> Seq<SexpV> {
    Seq::new(v.len(), |i: int| SexpV::Sym(v[i]))
}

/// `(effects ...)` of a text.
pub open spec fn font_spec(size: int, bold: bool, hide: bool, justify: Seq<char>) -> SexpV {
    let f = tagged(
        "font"@,
        seq![tagged("size"@, seq![mm(size), mm(size)])] + (if bold {
            seq![tagged("bold"@, seq![SexpV::Sym("yes"@)])]
        } else {
            Seq::empty()
        }),
    );
    tagged(
        "effects"@,
        seq![f] + (if justify.len() == 0 {
            Seq::empty()
        } else {
            seq![tagged("justify"@, syms(geo::words_from(justify, 0, Seq::empty())))]
        }) + (if hide {
            seq![tagged("hide"@, seq![SexpV::Sym("yes"@)])]
        } else {
            Seq::empty()
        }),
    )
}

pub open spec fn property_spec(name: Seq<char>, value: Seq<char>, a: AtV, hide: bool) -> SexpV {
    tagged(
        "property"@,
        seq![
            SexpV::Str(name),
            SexpV::Str(value),
            tagged("at"@, seq![mm(a.x), mm(a.y), whole_num(a.rot)]),
            font_spec(127_000, false, hide, a.justify),
        ],
    )
}

/// A property that stands hidden at the origin of its symbol.
pub open spec fn hidden_spec(name: Seq<char>, value: Seq<char>, at: Pt) -> SexpV {
    property_spec(
        name,
        value,
        AtV { x: at.x as int, y: at.y as int, rot: 0, justify: Seq::empty() },
        true,
    )
}

pub open spec fn uuid_spec(id: Seq<char>) -> SexpV {
    tagged("uuid"@, seq![SexpV::Str(id)])
}

pub open spec fn flag_spec(tag: Seq<char>, value: Seq<char>) -> SexpV {
    tagged(tag, seq![SexpV::Sym(value)])
}

pub open spec fn place_spec(at: Pt, rot: int) -> SexpV {
    tagged("at"@, seq![mm(at.x as int), mm(at.y as int), whole_num(rot)])
}

pub open spec fn instances_spec(project: Seq<char>, path: Seq<char>, reference: Seq<char>, unit: int) -> SexpV {
    tagged(
        "instances"@,
        seq![
            tagged(
                "project"@,
                seq![
                    SexpV::Str(project),
                    tagged(
                        "path"@,
                        seq![
                            SexpV::Str(path),
                            tagged("reference"@, seq![SexpV::Str(reference)]),
                            tagged("unit"@, seq![whole_num(unit)]),
                        ],
                    ),
                ],
            ),
        ],
    )
}

/// A list of nodes that is being built.
pub struct Nodes {
    pub v: Vec<Sexp>,
}

impl Nodes {
    pub open spec fn view(&self) -> Seq<SexpV> {
        sexp::nodes_v(self.v@)
    }

    pub fn tag(tag: &str) -> (r: Nodes)
        ensures
            r@ == seq![SexpV::Sym(tag@)],
            sexp::all_ok(r@),
    {
        let mut v: Vec<Sexp> = Vec::new();
        v.push(Sexp::sym(tag));
        let r = Nodes { v };
        assert(r@ =~= seq![SexpV::Sym(tag@)]);
        r
    }

    pub fn add(self, n: Sexp) -> (r: Nodes)
        requires
            sexp::all_ok(self@),
            sexp::ok(n@),
        ensures
            r@ == self@.push(n@),
            sexp::all_ok(r@),
    {
        let ghost v0 = self@;
        let ghost nv = n@;
        let mut v = self.v;
        v.push(n);
        let r = Nodes { v };
        assert(r@ =~= v0.push(nv));
        r
    }

    pub fn word(self, s: &str) -> (r: Nodes)
        requires
            sexp::all_ok(self@),
        ensures
            r@ == self@.push(SexpV::Sym(s@)),
            sexp::all_ok(r@),
    {
        self.add(Sexp::sym(s))
    }

    pub fn text(self, s: &str) -> (r: Nodes)
        requires
            sexp::all_ok(self@),
        ensures
            r@ == self@.push(SexpV::Str(s@)),
            sexp::all_ok(r@),
    {
        self.add(Sexp::str(s))
    }

    /// A coordinate.
    pub fn coord(self, v: i64) -> (r: Nodes)
        requires
            sexp::all_ok(self@),
            -2_500_000_000_000_000 <= v <= 2_500_000_000_000_000,
        ensures
            r@ == self@.push(mm(v as int)),
            sexp::all_ok(r@),
    {
        self.add(Sexp::Dec(10 * v))
    }

    pub fn count(self, v: i32) -> (r: Nodes)
        requires
            sexp::all_ok(self@),
        ensures
            r@ == self@.push(whole_num(v as int)),
            sexp::all_ok(r@),
    {
        self.add(Sexp::Dec(1_000_000 * (v as i64)))
    }

    pub fn done(self) -> (r: Sexp)
        requires
            sexp::all_ok(self@),
        ensures
            r@ == SexpV::List(self@),
            sexp::ok(r@),
    {
        proof {
            sexp::lemma_list_view(self.v);
            sexp::lemma_ok_all(self@);
        }
        Sexp::List(self.v)
    }
}

fn flag_node(tag: &str, value: &str) -> (r: Sexp)
    ensures
        r@ == flag_spec(tag@, value@),
        sexp::ok(r@),
{
    let r = Nodes::tag(tag).word(value).done();
    assert(r@->List_0 =~= flag_spec(tag@, value@)->List_0);
    r
}

fn uuid_node(id: &str) -> (r: Sexp)
    ensures
        r@ == uuid_spec(id@),
        sexp::ok(r@),
{
    let r = Nodes::tag("uuid").text(id).done();
    assert(r@->List_0 =~= uuid_spec(id@)->List_0);
    r
}

fn place_node(at: Pt, rot: i32) -> (r: Sexp)
    requires
        model::on_sheet(at) || place_text::roomy(at.x as int) && place_text::roomy(at.y as int),
    ensures
        r@ == place_spec(at, rot as int),
        sexp::ok(r@),
{
    let r = Nodes::tag("at").coord(at.x).coord(at.y).count(rot).done();
    assert(r@->List_0 =~= place_spec(at, rot as int)->List_0);
    r
}

fn font(size: i64, bold: bool, hide: bool, justify: &str) -> (r: Sexp)
    requires
        model::in_sheet(size as int),
    ensures
        r@ == font_spec(size as int, bold, hide, justify@),
        sexp::ok(r@),
{
    let sz = Nodes::tag("size").coord(size).coord(size).done();
    let ghost szv = tagged("size"@, seq![mm(size as int), mm(size as int)]);
    assert(sz@->List_0 =~= szv->List_0);
    let mut f = Nodes::tag("font").add(sz);
    if bold {
        f = f.add(flag_node("bold", "yes"));
    }
    let fnode = f.done();
    let ghost fv = tagged(
        "font"@,
        seq![szv] + (if bold {
            seq![flag_spec("bold"@, "yes"@)]
        } else {
            Seq::empty()
        }),
    );
    assert(fnode@->List_0 =~= fv->List_0);
    let mut e = Nodes::tag("effects").add(fnode);
    if justify.unicode_len() > 0 {
        let ws = geo::words(justify);
        let mut j = Nodes::tag("justify");
        let ghost all = geo::words_from(justify@, 0, Seq::empty());
        let mut i: usize = 0;
        assert(j@ =~= seq![SexpV::Sym("justify"@)] + syms(all).take(0));
        while i < ws.len()
            invariant
                i <= ws@.len(),
                text::views(ws@) == all,
                sexp::all_ok(j@),
                j@ == seq![SexpV::Sym("justify"@)] + syms(all).take(i as int),
            decreases ws@.len() - i,
        {
            assert(all[i as int] == ws@[i as int]@);
            assert(syms(all).take(i + 1) =~= syms(all).take(i as int).push(syms(all)[i as int]));
            let ghost j0 = j@;
            j = j.word(ws[i].as_str());
            assert(j@ =~= seq![SexpV::Sym("justify"@)] + syms(all).take(i + 1));
            i += 1;
        }
        assert(syms(all).take(all.len() as int) =~= syms(all));
        e = e.add(j.done());
    }
    if hide {
        e = e.add(flag_node("hide", "yes"));
    }
    let r = e.done();
    assert(r@->List_0 =~= font_spec(size as int, bold, hide, justify@)->List_0);
    r
}

fn property(name: &str, value: &str, a: &At, hide: bool) -> (r: Sexp)
    requires
        place_text::stored_at(a@),
    ensures
        r@ == property_spec(name@, value@, a@, hide),
        sexp::ok(r@),
{
    let at = Nodes::tag("at").coord(a.x).coord(a.y).count(a.rot).done();
    assert(at@->List_0 =~= tagged(
        "at"@,
        seq![mm(a.x as int), mm(a.y as int), whole_num(a.rot as int)],
    )->List_0);
    let f = font(127_000, false, hide, a.justify.as_str());
    let r = Nodes::tag("property").text(name).text(value).add(at).add(f).done();
    assert(r@->List_0 =~= property_spec(name@, value@, a@, hide)->List_0);
    r
}

fn hidden_property(name: &str, value: &str, at: Pt) -> (r: Sexp)
    requires
        place_text::roomy(at.x as int) && place_text::roomy(at.y as int),
    ensures
        r@ == hidden_spec(name@, value@, at),
        sexp::ok(r@),
{
    let justify = String::new();
    assert(justify@ =~= Seq::empty());
    let a = At { x: at.x, y: at.y, rot: 0, justify };
    property(name, value, &a, true)
}

fn instances(des: &Design, reference: &str, unit: i32) -> (r: Sexp)
    ensures
        r@ == instances_spec(des.project@, des.sheet_path_uuid@, reference@, unit as int),
        sexp::ok(r@),
{
    let rf = Nodes::tag("reference").text(reference).done();
    let un = Nodes::tag("unit").count(unit).done();
    assert(rf@->List_0 =~= tagged("reference"@, seq![SexpV::Str(reference@)])->List_0);
    assert(un@->List_0 =~= tagged("unit"@, seq![whole_num(unit as int)])->List_0);
    let ghost rv = rf@;
    let ghost uv = un@;
    let path = Nodes::tag("path").text(des.sheet_path_uuid.as_str()).add(rf).add(un).done();
    let ghost pv = path@;
    assert(pv->List_0 =~= tagged(
        "path"@,
        seq![SexpV::Str(des.sheet_path_uuid@), rv, uv],
    )->List_0);
    let proj = Nodes::tag("project").text(des.project.as_str()).add(path).done();
    let ghost jv = proj@;
    assert(jv->List_0 =~= tagged("project"@, seq![SexpV::Str(des.project@), pv])->List_0);
    let r = Nodes::tag("instances").add(proj).done();
    assert(r@->List_0 =~= instances_spec(
        des.project@,
        des.sheet_path_uuid@,
        reference@,
        unit as int,
    )->List_0);
    r
}

// ---------------------------------------------------------------- symbols

/// A symbol in use, and the symbol that its pins come from.
#[derive(Debug)]
pub struct Used {
    pub info: Arc<SymbolInfo>,
    pub src: Arc<SymbolInfo>,
}

impl Used {
    pub fn dup(&self) -> (r: Used)
        ensures
            r == *self,
    {
        Used { info: self.info.clone(), src: self.src.clone() }
    }

    pub open spec fn wf(&self) -> bool {
        self.info.wf() && self.src.wf()
    }
}

/// Where symbols come from: descriptions of the sheet's own symbols, the stock nodes with their
/// descriptions, and the stock index.
#[derive(Debug)]
pub struct Shelf {
    pub own: OrderMap<Arc<SymbolInfo>>,
    pub stock: Vec<(String, Sexp)>,
    pub stock_infos: OrderMap<Arc<SymbolInfo>>,
    pub index: SymbolIndex,
}

pub open spec fn infos_ok(m: OrderMap<Arc<SymbolInfo>>) -> bool {
    m.wf() && forall|i: int| 0 <= i < m.vals@.len() ==> (#[trigger] m.vals@[i]).wf()
}

impl Shelf {
    /// Every symbol node of the sheet and of the stock is described.
    pub open spec fn covers(&self, symbols: Seq<(Seq<char>, SexpV)>) -> bool {
        &&& infos_ok(self.own)
        &&& infos_ok(self.stock_infos)
        &&& self.index.wf()
        &&& forall|i: int| 0 <= i < symbols.len() ==> self.own.has((#[trigger] symbols[i]).0)
        &&& forall|i: int|
            0 <= i < sexp::named_v(self.stock@).len() ==> self.stock_infos.has(
                (#[trigger] sexp::named_v(self.stock@)[i]).0,
            ) && sexp::ok(sexp::named_v(self.stock@)[i].1)
    }
}

/// A text that is shown, as it is drawn.
#[derive(Debug)]
pub struct TextItem {
    pub owner: String,
    pub kind: String,
    pub text: String,
    pub x: i64,
    pub y: i64,
    pub rot: i32,
    pub justify: String,
    pub size: i64,
}

#[verifier::ext_equal]
pub struct TextItemV {
    pub owner: Seq<char>,
    pub kind: Seq<char>,
    pub text: Seq<char>,
    pub x: int,
    pub y: int,
    pub rot: int,
    pub justify: Seq<char>,
    pub size: int,
}

impl View for TextItem {
    type V = TextItemV;

    open spec fn view(&self) -> TextItemV {
        TextItemV {
            owner: self.owner@,
            kind: self.kind@,
            text: self.text@,
            x: self.x as int,
            y: self.y as int,
            rot: self.rot as int,
            justify: self.justify@,
            size: self.size as int,
        }
    }
}

/// A point a little beyond the sheet.
pub open spec fn around_sheet(x: int, y: int) -> bool {
    -2_200_000_000_000_000 <= x <= 2_200_000_000_000_000 && -2_200_000_000_000_000 <= y
        <= 2_200_000_000_000_000
}

pub open spec fn item_ok(t: TextItem) -> bool {
    around_sheet(t.x as int, t.y as int) && -model::SIZE_MAX <= t.size <= model::SIZE_MAX
}

pub open spec fn items_ok(v: Seq<TextItem>) -> bool {
    forall|i: int| 0 <= i < v.len() ==> item_ok(#[trigger] v[i])
}

pub open spec fn items_v(v: Seq<TextItem>) -> Seq<TextItemV> {
    Seq::new(v.len(), |i: int| v[i]@)
}

/// A design that is being written.
#[derive(Debug)]
pub struct Compiler {
    pub des: Design,
    pub shelf: Shelf,
    /// Symbol nodes to embed, first use first.
    pub libs: Vec<(String, Sexp)>,
    pub infos: OrderMap<Used>,
    pub errors: Vec<String>,
    pub text_items: Vec<TextItem>,
}

/// What has been gathered so far.
#[verifier::ext_equal]
pub struct StateV {
    pub libs: Seq<(Seq<char>, SexpV)>,
    pub infos: Seq<(Seq<char>, Used)>,
    pub errors: Seq<Seq<char>>,
    pub texts: Seq<TextItemV>,
}

pub open spec fn lib_key(lib: Seq<char>, name: Seq<char>) -> Seq<char> {
    if name.len() == 0 {
        lib
    } else {
        name
    }
}

/// The symbol that its pins come from: itself, or the stock symbol where its definition has none.
pub open spec fn pin_source(shelf: Shelf, info: Arc<SymbolInfo>, id: Seq<char>) -> Arc<SymbolInfo> {
    if info.pins@.len() == 0 && shelf.index.found(id) is Some {
        shelf.index.found(id)->0
    } else {
        info
    }
}

/// The node and description behind a key: the sheet's own first, then the stock.
pub open spec fn find_symbol(des: DesignV, shelf: Shelf, lib: Seq<char>, key: Seq<char>) -> Option<
    (SexpV, Used),
> {
    match order_map::look(des.lib_symbols, key) {
        Some(n) => {
            let info = shelf.own.value(key);
            Some((n, Used { info, src: pin_source(shelf, info, lib) }))
        },
        None => match order_map::look(sexp::named_v(shelf.stock@), key) {
            Some(n) => {
                let info = shelf.stock_infos.value(key);
                Some((n, Used { info, src: pin_source(shelf, info, key) }))
            },
            None => None,
        },
    }
}

/// Looking a symbol up, and what it leaves behind: a new one is noted and embedded, an unknown one
/// is an error.
pub open spec fn resolved(st: StateV, des: DesignV, shelf: Shelf, lib: Seq<char>, name: Seq<char>) -> (
    StateV,
    Option<Used>,
) {
    let key = lib_key(lib, name);
    match order_map::look(st.infos, key) {
        Some(u) => (st, Some(u)),
        None => match find_symbol(des, shelf, lib, key) {
            Some((n, u)) => (
                StateV {
                    libs: if order_map::look(st.libs, key) is Some {
                        st.libs
                    } else {
                        st.libs.push((key, n))
                    },
                    infos: order_map::put(st.infos, key, u),
                    ..st
                },
                Some(u),
            ),
            None => (
                StateV { errors: st.errors.push("unknown symbol "@ + key), ..st },
                None,
            ),
        },
    }
}

pub open spec fn nodes_ok(v: Seq<(Seq<char>, SexpV)>) -> bool {
    forall|i: int| 0 <= i < v.len() ==> sexp::ok((#[trigger] v[i]).1)
}

impl Compiler {
    pub open spec fn state(&self) -> StateV {
        StateV {
            libs: sexp::named_v(self.libs@),
            infos: order_map::plain_pairs(self.infos),
            errors: text::views(self.errors@),
            texts: items_v(self.text_items@),
        }
    }

    pub open spec fn wf(&self) -> bool {
        &&& self.des@.ok()
        &&& self.shelf.covers(self.des@.lib_symbols)
        &&& nodes_ok(sexp::named_v(self.libs@))
        &&& self.infos.wf()
        &&& forall|i: int| 0 <= i < self.infos.vals@.len() ==> (#[trigger] self.infos.vals@[i]).wf()
        &&& items_ok(self.text_items@)
    }

    pub fn new(des: Design, shelf: Shelf) -> (c: Compiler)
        requires
            des@.ok(),
            shelf.covers(des@.lib_symbols),
        ensures
            c.wf(),
            c.des@ == des@,
            c.shelf == shelf,
            c.state() == (StateV {
                libs: Seq::empty(),
                infos: Seq::empty(),
                errors: Seq::empty(),
                texts: Seq::empty(),
            }),
    {
        let c = Compiler {
            des,
            shelf,
            libs: Vec::new(),
            infos: OrderMap::new(),
            errors: Vec::new(),
            text_items: Vec::new(),
        };
        assert(c.state() =~= StateV {
            libs: Seq::empty(),
            infos: Seq::empty(),
            errors: Seq::empty(),
            texts: Seq::empty(),
        });
        c
    }

    fn source_of(&self, info: &Arc<SymbolInfo>, id: &str) -> (r: Arc<SymbolInfo>)
        requires
            self.shelf.index.wf(),
            info.wf(),
        ensures
            r == pin_source(self.shelf, *info, id@),
            r.wf(),
    {
        if info.pins.len() == 0 {
            if let Some(s) = self.shelf.index.get(id) {
                return s.clone();
            }
        }
        info.clone()
    }

    fn fetch(&self, lib: &str, key: &str) -> (r: Option<(Sexp, Used)>)
        requires
            self.wf(),
        ensures
            match r {
                Some((n, u)) => find_symbol(self.des@, self.shelf, lib@, key@) == Some((n@, u))
                    && sexp::ok(n@) && u.wf(),
                None => find_symbol(self.des@, self.shelf, lib@, key@) is None,
            },
    {
        proof {
            order_map::lemma_seek(self.des@.lib_symbols, key@, 0);
            order_map::lemma_seek(sexp::named_v(self.shelf.stock@), key@, 0);
            order_map::lemma_first_of(self.shelf.own.names(), key@);
            order_map::lemma_first_of(self.shelf.stock_infos.names(), key@);
        }
        if let Some(n) = find_named(&self.des.lib_symbols, key) {
            let ghost i = order_map::seek(self.des@.lib_symbols, key@, 0);
            assert(self.des@.lib_symbols[i].0 == key@);
            assert(sexp::ok(self.des@.lib_symbols[i].1));
            if let Some(info) = self.shelf.own.get(key) {
                let u = Used { info: info.clone(), src: self.source_of(info, lib) };
                return Some((n.dup(), u));
            }
            assert(false);
        }
        if let Some(n) = find_named(&self.shelf.stock, key) {
            let ghost i = order_map::seek(sexp::named_v(self.shelf.stock@), key@, 0);
            assert(sexp::named_v(self.shelf.stock@)[i].0 == key@);
            assert(sexp::ok(sexp::named_v(self.shelf.stock@)[i].1));
            if let Some(info) = self.shelf.stock_infos.get(key) {
                let u = Used { info: info.clone(), src: self.source_of(info, key) };
                return Some((n.dup(), u));
            }
            assert(false);
        }
        None
    }

    /// The symbol behind an instance, without noting it.
    pub(crate) fn find_lib(&self, lib: &str, name: &str) -> (r: Option<Used>)
        requires
            self.wf(),
        ensures
            r == resolved(self.state(), self.des@, self.shelf, lib@, name@).1,
            r is Some ==> r->0.wf(),
    {
        let key = if name.unicode_len() == 0 {
            lib.to_owned()
        } else {
            name.to_owned()
        };
        proof {
            order_map::lemma_plain_found(self.infos, key@);
            order_map::lemma_first_of(self.infos.names(), key@);
        }
        if let Some(u) = self.infos.get(key.as_str()) {
            return Some(u.dup());
        }
        match self.fetch(lib, key.as_str()) {
            Some((_, u)) => Some(u),
            None => None,
        }
    }

    /// The symbol behind an instance; its node is embedded on first use.
    pub fn resolve_lib(&mut self, lib: &str, name: &str) -> (r: Option<Used>)
        requires
            old(self).wf(),
        ensures
            final(self).wf(),
            final(self).des == old(self).des,
            final(self).shelf == old(self).shelf,
            (final(self).state(), r) == resolved(
                old(self).state(),
                old(self).des@,
                old(self).shelf,
                lib@,
                name@,
            ),
            r is Some ==> r->0.wf(),
    {
        let ghost s0 = self.state();
        let key = if name.unicode_len() == 0 {
            lib.to_owned()
        } else {
            name.to_owned()
        };
        proof {
            order_map::lemma_plain_found(self.infos, key@);
            order_map::lemma_first_of(self.infos.names(), key@);
        }
        if let Some(u) = self.infos.get(key.as_str()) {
            return Some(u.dup());
        }
        match self.fetch(lib, key.as_str()) {
            Some((n, u)) => {
                let ghost nv = n@;
                let known = find_named(&self.libs, key.as_str()).is_some();
                if !known {
                    let ghost l0 = self.libs@;
                    self.libs.push((key.clone(), n));
                    assert(sexp::named_v(self.libs@) =~= sexp::named_v(l0).push((key@, nv)));
                    assert forall|i: int| 0 <= i < sexp::named_v(self.libs@).len() implies sexp::ok(
                        (#[trigger] sexp::named_v(self.libs@)[i]).1,
                    ) by {
                        if i < l0.len() {
                            assert(sexp::named_v(l0)[i] == sexp::named_v(self.libs@)[i]);
                        }
                    }
                }
                let ghost m0 = self.infos;
                self.infos.insert(key.as_str(), u.dup());
                proof {
                    order_map::lemma_plain_put(m0, self.infos, key@, u);
                    order_map::lemma_first_of(m0.names(), key@);
                    assert(self.state() =~= resolved(s0, self.des@, self.shelf, lib@, name@).0);
                }
                Some(u)
            },
            None => {
                let ghost e0 = self.errors@;
                let msg = concat3("unknown symbol ", key.as_str(), "");
                proof {
                    reveal_strlit("");
                    assert(msg@ =~= "unknown symbol "@ + key@);
                }
                self.errors.push(msg);
                proof {
                    assert(text::views(self.errors@) =~= text::views(e0).push(
                        "unknown symbol "@ + key@,
                    ));
                    assert(self.state() =~= resolved(s0, self.des@, self.shelf, lib@, name@).0);
                }
                None
            },
        }
    }
}

// ---------------------------------------------------------------- pins and junctions

/// A pin at a point: the part's reference, the pin's number and electrical type.
#[derive(Debug)]
pub struct PinRef {
    pub owner: String,
    pub number: String,
    pub etype: String,
}

#[verifier::ext_equal]
pub struct PinRefV {
    pub owner: Seq<char>,
    pub number: Seq<char>,
    pub etype: Seq<char>,
}

impl View for PinRef {
    type V = PinRefV;

    open spec fn view(&self) -> PinRefV {
        PinRefV { owner: self.owner@, number: self.number@, etype: self.etype@ }
    }
}

pub open spec fn refs_v(v: Seq<PinRef>) -> Seq<PinRefV> {
    Seq::new(v.len(), |i: int| v[i]@)
}

pub type PinsAtV = Seq<(Key, Seq<PinRefV>)>;

pub open spec fn pins_at_v(v: Seq<(Key, Vec<PinRef>)>) -> PinsAtV {
    Seq::new(v.len(), |i: int| (v[i].0, refs_v(v[i].1@)))
}

pub open spec fn seek_key<T>(v: Seq<(Key, T)>, k: Key, i: int) -> int
    decreases v.len() - i,
{
    if i < 0 || i >= v.len() || v[i].0 == k {
        i
    } else {
        seek_key(v, k, i + 1)
    }
}

/// One pin more at a point.
pub open spec fn add_ref(v: PinsAtV, k: Key, r: PinRefV) -> PinsAtV {
    let i = seek_key(v, k, 0);
    if i < v.len() {
        v.update(i, (k, v[i].1.push(r)))
    } else {
        v.push((k, seq![r]))
    }
}

/// Where a pin of a part is, before rounding.
pub open spec fn pin_place(p: PartV, pin: Pin) -> Pt {
    let (dx, dy) = symlib::turned(
        pin.x as int,
        pin.y as int,
        p.rot,
        symlib::mirror_spec(p.mirror),
    );
    Pt { x: (p.at.x + dx) as i64, y: (p.at.y + dy) as i64 }
}

/// The first `n` pins of a part; hidden pins are left out.
pub open spec fn part_refs(v: PinsAtV, p: PartV, pins: Seq<Pin>, n: int) -> PinsAtV
    decreases n,
{
    if n <= 0 {
        v
    } else {
        let before = part_refs(v, p, pins, n - 1);
        let pin = pins[n - 1];
        if pin.hidden {
            before
        } else {
            add_ref(
                before,
                key_spec(pin_place(p, pin)),
                PinRefV { owner: p.id, number: pin.number@, etype: pin.etype@ },
            )
        }
    }
}

pub open spec fn power_refs(v: PinsAtV, power: Seq<PowerV>, n: int) -> PinsAtV
    decreases n,
{
    if n <= 0 {
        v
    } else {
        let w = power[n - 1];
        add_ref(
            power_refs(v, power, n - 1),
            key_spec(w.at),
            PinRefV {
                owner: if w.reference.len() == 0 {
                    "#PWR"@
                } else {
                    w.reference
                },
                number: "1"@,
                etype: "power_in"@,
            },
        )
    }
}

/// The pins of the first `n` parts, and what looking up their symbols leaves behind.
pub open spec fn all_refs(st: StateV, des: DesignV, shelf: Shelf, n: int) -> (StateV, PinsAtV)
    decreases n,
{
    if n <= 0 {
        (st, Seq::empty())
    } else {
        let (s, v) = all_refs(st, des, shelf, n - 1);
        let p = des.parts[n - 1];
        let (s1, u) = resolved(s, des, shelf, p.lib, p.lib_name);
        match u {
            Some(x) => {
                let pins = x.src.unit_spec(p.unit).pins@;
                (s1, part_refs(v, p, pins, pins.len() as int))
            },
            None => (s1, v),
        }
    }
}

/// Every point with pins: parts first, then power symbols.
pub open spec fn pin_positions(st: StateV, des: DesignV, shelf: Shelf) -> (StateV, PinsAtV) {
    let (s, v) = all_refs(st, des, shelf, des.parts.len() as int);
    (s, power_refs(v, des.power, des.power.len() as int))
}

fn push_ref(v: &mut Vec<(Key, Vec<PinRef>)>, k: Key, r: PinRef)
    requires
        keys_ok(old(v)@),
        key_ok(k),
    ensures
        keys_ok(final(v)@),
        pins_at_v(final(v)@) == add_ref(pins_at_v(old(v)@), k, r@),
{
    let ghost v0 = v@;
    let ghost vs = pins_at_v(v@);
    let ghost rv = r@;
    let mut i: usize = 0;
    while i < v.len() && v[i].0 != k
        invariant
            i <= v@.len(),
            v@ == v0,
            vs == pins_at_v(v0),
            seek_key(vs, k, 0) == seek_key(vs, k, i as int),
        decreases v@.len() - i,
    {
        assert(vs[i as int].0 == v0[i as int].0);
        i += 1;
    }
    if i < v.len() {
        assert(vs[i as int].0 == v0[i as int].0);
        let ghost l0 = v@[i as int].1@;
        v[i].1.push(r);
        proof {
            assert(refs_v(v@[i as int].1@) =~= refs_v(l0).push(rv));
            assert(pins_at_v(v@) =~= vs.update(i as int, (k, vs[i as int].1.push(rv))));
            assert forall|j: int| 0 <= j < v@.len() implies key_ok((#[trigger] v@[j]).0) by {
                assert(v@[j].0 == v0[j].0);
            }
        }
    } else {
        let mut list: Vec<PinRef> = Vec::new();
        list.push(r);
        assert(refs_v(list@) =~= seq![rv]);
        v.push((k, list));
        assert(pins_at_v(v@) =~= vs.push((k, seq![rv])));
    }
}

pub open spec fn keys_ok(v: Seq<(Key, Vec<PinRef>)>) -> bool {
    forall|i: int| 0 <= i < v.len() ==> key_ok((#[trigger] v[i]).0)
}

pub open spec fn first_pin(pins: Seq<Pin>, number: Seq<char>, i: int) -> int
    decreases pins.len() - i,
{
    if i < 0 || i >= pins.len() || pins[i].number@ == number {
        i
    } else {
        first_pin(pins, number, i + 1)
    }
}

impl Compiler {
    /// Where a pin of a part is.
    pub fn pin_pos(&mut self, k: usize, number: &str) -> (r: Option<Pt>)
        requires
            old(self).wf(),
            k < old(self).des.parts@.len(),
        ensures
            final(self).wf(),
            final(self).des == old(self).des,
            final(self).shelf == old(self).shelf,
            ({
                let p = old(self).des@.parts[k as int];
                let (st, u) = resolved(
                    old(self).state(),
                    old(self).des@,
                    old(self).shelf,
                    p.lib,
                    p.lib_name,
                );
                &&& final(self).state() == st
                &&& match u {
                    Some(x) => {
                        let pins = x.src.unit_spec(p.unit).pins@;
                        let i = first_pin(pins, number@, 0);
                        if i < pins.len() {
                            let at = pin_place(p, pins[i]);
                            r == Some(
                                Pt {
                                    x: place_text::r4(at.x as int) as i64,
                                    y: place_text::r4(at.y as int) as i64,
                                },
                            )
                        } else {
                            r is None
                        }
                    },
                    None => r is None,
                }
            }),
    {
        let lib = self.des.parts[k].lib.clone();
        let name = self.des.parts[k].lib_name.clone();
        assert(self.des@.parts[k as int] == self.des.parts@[k as int]@);
        assert(model::part_ok(self.des@.parts[k as int]));
        let u = match self.resolve_lib(lib.as_str(), name.as_str()) {
            Some(u) => u,
            None => {
                return None;
            },
        };
        let p = &self.des.parts[k];
        let pins = u.src.pins_for_unit(p.unit);
        let key = number.to_owned();
        let mut i: usize = 0;
        while i < pins.len() && pins[i].number != key
            invariant
                i <= pins@.len(),
                key@ == number@,
                first_pin(pins@, number@, 0) == first_pin(pins@, number@, i as int),
            decreases pins@.len() - i,
        {
            i += 1;
        }
        if i >= pins.len() {
            return None;
        }
        assert(symlib::pin_ok(pins@[i as int]));
        let d = rot_point(pins[i].x, pins[i].y, p.rot, mirror_of(p.mirror.as_str()));
        Some(Pt { x: round_to(p.at.x + d.0, 10), y: round_to(p.at.y + d.1, 10) })
    }

    /// Every point with pins, and the pins there.
    pub fn all_pin_positions(&mut self) -> (r: Vec<(Key, Vec<PinRef>)>)
        requires
            old(self).wf(),
        ensures
            final(self).wf(),
            final(self).des == old(self).des,
            final(self).shelf == old(self).shelf,
            (final(self).state(), pins_at_v(r@)) == pin_positions(
                old(self).state(),
                old(self).des@,
                old(self).shelf,
            ),
            keys_ok(r@),
    {
        let ghost st0 = self.state();
        let ghost des = self.des;
        let ghost shelf = self.shelf;
        let mut out: Vec<(Key, Vec<PinRef>)> = Vec::new();
        let mut i: usize = 0;
        assert(pins_at_v(out@) =~= Seq::empty());
        while i < self.des.parts.len()
            invariant
                i <= self.des.parts@.len(),
                self.wf(),
                self.des == des,
                self.shelf == shelf,
                keys_ok(out@),
                (self.state(), pins_at_v(out@)) == all_refs(st0, des@, shelf, i as int),
            decreases self.des.parts@.len() - i,
        {
            let lib = self.des.parts[i].lib.clone();
            let name = self.des.parts[i].lib_name.clone();
            assert(des@.parts[i as int] == des.parts@[i as int]@);
            assert(model::part_ok(des@.parts[i as int]));
            let ghost v0 = pins_at_v(out@);
            if let Some(u) = self.resolve_lib(lib.as_str(), name.as_str()) {
                let p = &self.des.parts[i];
                let pins = u.src.pins_for_unit(p.unit);
                let ghost ps = pins@;
                let m = mirror_of(p.mirror.as_str());
                let mut k: usize = 0;
                while k < pins.len()
                    invariant
                        k <= pins@.len(),
                        ps == pins@,
                        model::part_ok(p@),
                        m == symlib::mirror_spec(p.mirror@),
                        forall|j: int| 0 <= j < ps.len() ==> symlib::pin_ok(#[trigger] ps[j]),
                        keys_ok(out@),
                        pins_at_v(out@) == part_refs(v0, p@, ps, k as int),
                    decreases pins@.len() - k,
                {
                    let pin = &pins[k];
                    assert(symlib::pin_ok(ps[k as int]));
                    if !pin.hidden {
                        let d = rot_point(pin.x, pin.y, p.rot, m);
                        let key = Key::of(Pt { x: p.at.x + d.0, y: p.at.y + d.1 });
                        push_ref(
                            &mut out,
                            key,
                            PinRef {
                                owner: p.id.clone(),
                                number: pin.number.clone(),
                                etype: pin.etype.clone(),
                            },
                        );
                    }
                    k += 1;
                }
            }
            i += 1;
        }
        let ghost v1 = pins_at_v(out@);
        i = 0;
        while i < self.des.power.len()
            invariant
                i <= self.des.power@.len(),
                self.wf(),
                self.des == des,
                self.shelf == shelf,
                keys_ok(out@),
                pins_at_v(out@) == power_refs(v1, des@.power, i as int),
                (self.state(), v1) == all_refs(st0, des@, shelf, des@.parts.len() as int),
            decreases self.des.power@.len() - i,
        {
            let w = &self.des.power[i];
            assert(des@.power[i as int] == des.power@[i as int]@);
            assert(model::power_ok(des@.power[i as int]));
            let owner = if w.reference.as_str().unicode_len() == 0 {
                "#PWR".to_owned()
            } else {
                w.reference.clone()
            };
            let key = Key::of(w.at);
            push_ref(
                &mut out,
                key,
                PinRef { owner, number: "1".to_owned(), etype: "power_in".to_owned() },
            );
            i += 1;
        }
        out
    }
}

/// `p` lies inside the segment, away from its ends, as far as a hundredth tells.
pub open spec fn inside_seg(p: Key, a: Key, b: Key) -> bool {
    let (px, py, ax, ay, bx, by) = (
        p.0 as int,
        p.1 as int,
        a.0 as int,
        a.1 as int,
        b.0 as int,
        b.1 as int,
    );
    if ax == bx {
        px == ax && geom::lo(ay, by) + 1 < py < geom::hi(ay, by) - 1
    } else if ay == by {
        py == ay && geom::lo(ax, bx) + 1 < px < geom::hi(ax, bx) - 1
    } else {
        let (ux, uy) = (bx - ax, by - ay);
        let den = ux * ux + uy * uy;
        let t = (px - ax) * ux + (py - ay) * uy;
        &&& den < 100 * t && 100 * t < 99 * den
        &&& geom::mag((ax - px) * den + t * ux) < den
        &&& geom::mag((ay - py) * den + t * uy) < den
    }
}

proof fn lemma_product(a: int, b: int, m: int, n: int)
    requires
        -m <= a <= m,
        -n <= b <= n,
        0 <= m,
        0 <= n,
    ensures
        -(m * n) <= a * b <= m * n,
{
    assert(-(m * n) <= a * b && a * b <= m * n) by (nonlinear_arith)
        requires
            -m <= a <= m,
            -n <= b <= n,
            0 <= m,
            0 <= n,
    ;
}

/// Whether a point lies inside a segment, away from its ends.
pub fn on_segment(p: Key, a: Key, b: Key) -> (r: bool)
    requires
        key_ok(p),
        key_ok(a),
        key_ok(b),
    ensures
        r == inside_seg(p, a, b),
{
    if a.0 == b.0 {
        return p.0 == a.0 && geom::min_i(a.1, b.1) + 1 < p.1 && p.1 < geom::max_i(a.1, b.1) - 1;
    }
    if a.1 == b.1 {
        return p.1 == a.1 && geom::min_i(a.0, b.0) + 1 < p.0 && p.0 < geom::max_i(a.0, b.0) - 1;
    }
    let ux: i128 = (b.0 - a.0) as i128;
    let uy: i128 = (b.1 - a.1) as i128;
    let wx: i128 = (p.0 - a.0) as i128;
    let wy: i128 = (p.1 - a.1) as i128;
    proof {
        let m = 2_400_000_000_000int;
        let q = 5_760_000_000_000_000_000_000_000int;
        assert(m * m == q);
        lemma_product(ux as int, ux as int, m, m);
        lemma_product(uy as int, uy as int, m, m);
        lemma_product(wx as int, ux as int, m, m);
        lemma_product(wy as int, uy as int, m, m);
        assert(ux * ux >= 0 && uy * uy >= 0) by (nonlinear_arith);
        let den = ux * ux + uy * uy;
        let t = wx * ux + wy * uy;
        lemma_product(-wx as int, den, m, 2 * q);
        lemma_product(-wy as int, den, m, 2 * q);
        lemma_product(t, ux as int, 2 * q, m);
        lemma_product(t, uy as int, 2 * q, m);
        assert(m * (2 * q) == 27_648_000_000_000_000_000_000_000_000_000_000_000int);
        assert((2 * q) * m == 27_648_000_000_000_000_000_000_000_000_000_000_000int);
    }
    let den: i128 = ux * ux + uy * uy;
    let t: i128 = wx * ux + wy * uy;
    if !(den < 100 * t && 100 * t < 99 * den) {
        return false;
    }
    let cx: i128 = (-wx) * den + t * ux;
    let cy: i128 = (-wy) * den + t * uy;
    -den < cx && cx < den && -den < cy && cy < den
}

pub open spec fn bumped(v: Seq<(Key, int)>, k: Key, n: int) -> Seq<(Key, int)> {
    let i = seek_key(v, k, 0);
    if i < v.len() {
        v.update(i, (k, v[i].1 + n))
    } else {
        v.push((k, n))
    }
}

pub open spec fn wire_keys(w: Seq<Pt>, n: int) -> Seq<(Key, Key)>
    decreases n,
{
    if n <= 1 {
        Seq::empty()
    } else {
        wire_keys(w, n - 1).push((key_spec(w[n - 2]), key_spec(w[n - 1])))
    }
}

pub open spec fn all_keys(ws: Seq<Seq<Pt>>, n: int) -> Seq<(Key, Key)>
    decreases n,
{
    if n <= 0 {
        Seq::empty()
    } else {
        all_keys(ws, n - 1) + wire_keys(ws[n - 1], ws[n - 1].len() as int)
    }
}

/// Wire ends at each point, for the first `n` segments.
pub open spec fn seg_degrees(segs: Seq<(Key, Key)>, n: int) -> Seq<(Key, int)>
    decreases n,
{
    if n <= 0 {
        Seq::empty()
    } else {
        bumped(bumped(seg_degrees(segs, n - 1), segs[n - 1].0, 1), segs[n - 1].1, 1)
    }
}

pub open spec fn pin_degrees(v: Seq<(Key, int)>, pins: PinsAtV, n: int) -> Seq<(Key, int)>
    decreases n,
{
    if n <= 0 {
        v
    } else {
        bumped(pin_degrees(v, pins, n - 1), pins[n - 1].0, pins[n - 1].1.len() as int)
    }
}

pub open spec fn label_degrees(v: Seq<(Key, int)>, labels: Seq<LabelV>, n: int) -> Seq<(Key, int)>
    decreases n,
{
    if n <= 0 {
        v
    } else {
        bumped(label_degrees(v, labels, n - 1), key_spec(labels[n - 1].at), 0)
    }
}

/// Segments among the first `n` that pass through a point.
pub open spec fn passing(segs: Seq<(Key, Key)>, k: Key, n: int) -> int
    decreases n,
{
    if n <= 0 {
        0
    } else {
        passing(segs, k, n - 1) + (if k != segs[n - 1].0 && k != segs[n - 1].1 && inside_seg(
            k,
            segs[n - 1].0,
            segs[n - 1].1,
        ) {
            1int
        } else {
            0
        })
    }
}

/// The points among the first `n` where three or more connections meet.
pub open spec fn meeting(v: Seq<(Key, int)>, segs: Seq<(Key, Key)>, n: int) -> Seq<Pt>
    decreases n,
{
    if n <= 0 {
        Seq::empty()
    } else {
        let k = v[n - 1].0;
        if v[n - 1].1 + 2 * passing(segs, k, segs.len() as int) >= 3 {
            meeting(v, segs, n - 1).push(k.point())
        } else {
            meeting(v, segs, n - 1)
        }
    }
}

/// Where junctions are drawn.
pub open spec fn junctions_spec(des: DesignV, pins: PinsAtV) -> Seq<Pt> {
    let segs = all_keys(des.wires, des.wires.len() as int);
    let d = label_degrees(
        pin_degrees(seg_degrees(segs, segs.len() as int), pins, pins.len() as int),
        des.labels,
        des.labels.len() as int,
    );
    meeting(d, segs, d.len() as int)
}

/// Degrees up to a cap that is past what matters.
spec fn capped(v: Seq<(Key, u64)>, d: Seq<(Key, int)>) -> bool {
    &&& v.len() == d.len()
    &&& forall|i: int|
        0 <= i < v.len() ==> (#[trigger] v[i]).0 == d[i].0 && v[i].1 == geom::lo(d[i].1, 8) && d[i].1
            >= 0 && key_ok(v[i].0)
}

proof fn lemma_seek_same(v: Seq<(Key, u64)>, d: Seq<(Key, int)>, k: Key, i: int)
    requires
        capped(v, d),
        0 <= i <= v.len(),
    ensures
        seek_key(v, k, i) == seek_key(d, k, i),
        i <= seek_key(v, k, i) <= v.len(),
    decreases v.len() - i,
{
    if i < v.len() && v[i].0 != k {
        assert(v[i].0 == d[i].0);
        lemma_seek_same(v, d, k, i + 1);
    } else if i < v.len() {
        assert(v[i].0 == d[i].0);
    }
}

fn bump(v: &mut Vec<(Key, u64)>, k: Key, n: usize, Ghost(d): Ghost<Seq<(Key, int)>>)
    requires
        capped(old(v)@, d),
        key_ok(k),
    ensures
        capped(final(v)@, bumped(d, k, n as int)),
{
    let ghost v0 = v@;
    let m: u64 = if n < 8 { n as u64 } else { 8 };
    let mut i: usize = 0;
    while i < v.len() && v[i].0 != k
        invariant
            i <= v@.len(),
            v@ == v0,
            seek_key(v0, k, 0) == seek_key(v0, k, i as int),
        decreases v@.len() - i,
    {
        i += 1;
    }
    proof {
        lemma_seek_same(v0, d, k, 0);
    }
    if i < v.len() {
        assert(v0[i as int].1 == geom::lo(d[i as int].1, 8));
        let t: u64 = v[i].1 + m;
        v.set(i, (k, if t < 8 { t } else { 8 }));
        assert forall|j: int| 0 <= j < v@.len() implies (#[trigger] v@[j]).0 == bumped(
            d,
            k,
            n as int,
        )[j].0 && v@[j].1 == geom::lo(bumped(d, k, n as int)[j].1, 8) && bumped(d, k, n as int)[j].1
            >= 0 && key_ok(v@[j].0) by {
            if j != i {
                assert(v@[j] == v0[j]);
            }
        }
    } else {
        v.push((k, m));
        assert forall|j: int| 0 <= j < v@.len() implies (#[trigger] v@[j]).0 == bumped(
            d,
            k,
            n as int,
        )[j].0 && v@[j].1 == geom::lo(bumped(d, k, n as int)[j].1, 8) && bumped(d, k, n as int)[j].1
            >= 0 && key_ok(v@[j].0) by {
            if j < v0.len() {
                assert(v@[j] == v0[j]);
            }
        }
    }
}

pub open spec fn seg_keys_ok(v: Seq<(Key, Key)>) -> bool {
    forall|i: int| 0 <= i < v.len() ==> key_ok((#[trigger] v[i]).0) && key_ok(v[i].1)
}

impl Compiler {
    pub(crate) fn segments(&self) -> (r: Vec<(Key, Key)>)
        requires
            self.des@.ok(),
        ensures
            r@ == all_keys(self.des@.wires, self.des@.wires.len() as int),
            seg_keys_ok(r@),
    {
        let mut r: Vec<(Key, Key)> = Vec::new();
        let mut i: usize = 0;
        while i < self.des.wires.len()
            invariant
                i <= self.des.wires@.len(),
                self.des@.ok(),
                seg_keys_ok(r@),
                r@ == all_keys(self.des@.wires, i as int),
            decreases self.des.wires@.len() - i,
        {
            let w = &self.des.wires[i];
            assert(self.des@.wires[i as int] == w@);
            assert(model::path_ok(self.des@.wires[i as int]));
            let ghost r0 = r@;
            let mut k: usize = 1;
            assert(r@ =~= r0 + wire_keys(w@, 1));
            while k < w.len()
                invariant
                    1 <= k,
                    k <= w@.len() || k == 1,
                    model::path_ok(w@),
                    seg_keys_ok(r@),
                    r@ == r0 + wire_keys(w@, k as int),
                decreases w@.len() - k,
            {
                assert(model::on_sheet(w@[k - 1]) && model::on_sheet(w@[k as int]));
                r.push((Key::of(w[k - 1]), Key::of(w[k])));
                assert(r@ =~= r0 + wire_keys(w@, k + 1));
                k += 1;
            }
            assert(wire_keys(w@, 0) =~= wire_keys(w@, 1));
            i += 1;
        }
        r
    }

    /// Points where three or more connections meet.
    pub fn compute_junctions(&mut self) -> (r: Vec<Pt>)
        requires
            old(self).wf(),
        ensures
            final(self).wf(),
            final(self).des == old(self).des,
            final(self).shelf == old(self).shelf,
            ({
                let (st, pins) = pin_positions(old(self).state(), old(self).des@, old(self).shelf);
                final(self).state() == st && r@ == junctions_spec(old(self).des@, pins)
            }),
            forall|i: int|
                0 <= i < r@.len() ==> place_text::roomy((#[trigger] r@[i]).x as int)
                    && place_text::roomy(r@[i].y as int),
    {
        let pins = self.all_pin_positions();
        let segs = self.segments();
        let ghost ss = segs@;
        let ghost pv = pins_at_v(pins@);
        let mut deg: Vec<(Key, u64)> = Vec::new();
        let ghost mut d: Seq<(Key, int)> = Seq::empty();
        let mut i: usize = 0;
        while i < segs.len()
            invariant
                i <= segs@.len(),
                ss == segs@,
                seg_keys_ok(ss),
                capped(deg@, d),
                d == seg_degrees(ss, i as int),
            decreases segs@.len() - i,
        {
            let (a, b) = segs[i];
            assert(key_ok(ss[i as int].0) && key_ok(ss[i as int].1));
            bump(&mut deg, a, 1, Ghost(d));
            let ghost d1 = bumped(d, a, 1);
            bump(&mut deg, b, 1, Ghost(d1));
            proof {
                d = bumped(d1, b, 1);
            }
            i += 1;
        }
        let ghost ds = d;
        i = 0;
        while i < pins.len()
            invariant
                i <= pins@.len(),
                keys_ok(pins@),
                pv == pins_at_v(pins@),
                capped(deg@, d),
                d == pin_degrees(ds, pv, i as int),
            decreases pins@.len() - i,
        {
            assert(pv[i as int].0 == pins@[i as int].0 && pv[i as int].1.len()
                == pins@[i as int].1@.len());
            assert(key_ok(pins@[i as int].0));
            bump(&mut deg, pins[i].0, pins[i].1.len(), Ghost(d));
            proof {
                d = bumped(d, pv[i as int].0, pv[i as int].1.len() as int);
            }
            i += 1;
        }
        let ghost dp = d;
        i = 0;
        while i < self.des.labels.len()
            invariant
                i <= self.des.labels@.len(),
                self.wf(),
                capped(deg@, d),
                d == label_degrees(dp, self.des@.labels, i as int),
            decreases self.des.labels@.len() - i,
        {
            assert(self.des@.labels[i as int] == self.des.labels@[i as int]@);
            assert(model::on_sheet(self.des@.labels[i as int].at));
            bump(&mut deg, Key::of(self.des.labels[i].at), 0, Ghost(d));
            proof {
                d = bumped(d, key_spec(self.des@.labels[i as int].at), 0);
            }
            i += 1;
        }
        let mut r: Vec<Pt> = Vec::new();
        i = 0;
        while i < deg.len()
            invariant
                i <= deg@.len(),
                capped(deg@, d),
                ss == segs@,
                seg_keys_ok(ss),
                r@ == meeting(d, ss, i as int),
                forall|i: int|
                    0 <= i < r@.len() ==> place_text::roomy((#[trigger] r@[i]).x as int)
                        && place_text::roomy(r@[i].y as int),
            decreases deg@.len() - i,
        {
            let (k, n) = deg[i];
            assert(deg@[i as int].0 == d[i as int].0);
            let mut c: u64 = n;
            let mut j: usize = 0;
            while j < segs.len()
                invariant
                    j <= segs@.len(),
                    ss == segs@,
                    seg_keys_ok(ss),
                    key_ok(k),
                    n == geom::lo(d[i as int].1, 8),
                    d[i as int].1 >= 0,
                    c == geom::lo(n + 2 * passing(ss, k, j as int), 8),
                    passing(ss, k, j as int) >= 0,
                decreases segs@.len() - j,
            {
                let (a, b) = segs[j];
                assert(key_ok(ss[j as int].0) && key_ok(ss[j as int].1));
                if k != a && k != b && on_segment(k, a, b) {
                    c = if c < 6 { c + 2 } else { 8 };
                }
                j += 1;
            }
            if c >= 3 {
                r.push(k.xy());
            }
            i += 1;
        }
        r
    }
}

// ---------------------------------------------------------------- symbol instances

pub open spec fn power_box(at: Pt) -> BBox {
    engine::bx(at.x - 300_000, at.y - 450_000, at.x + 300_000, at.y + 450_000)
}

/// The wires and power symbols that texts keep clear of.
pub open spec fn around_spec(des: DesignV) -> AroundV {
    AroundV {
        segs: group::all_segs(des.wires, des.wires.len() as int),
        boxes: Seq::new(des.power.len(), |i: int| power_box(des.power[i].at)),
    }
}

/// What stands behind the first colon; nothing where there is none.
pub open spec fn after_colon(lib: Seq<char>) -> Seq<char> {
    if text::pieces(lib, ':').len() > 1 {
        extract::behind_colon(lib)
    } else {
        Seq::empty()
    }
}

pub open spec fn shown_value(p: PartV, info: SymbolInfo) -> Seq<char> {
    if p.value.len() > 0 {
        p.value
    } else if info.value@.len() > 0 {
        info.value@
    } else {
        after_colon(p.lib)
    }
}

pub open spec fn field_text(p: PartV, k: Seq<char>) -> Option<Seq<char>> {
    match order_map::look(p.fields, k) {
        Some(j) => json::str_in(j),
        None => None,
    }
}

pub open spec fn text_or(t: Option<Seq<char>>, other: Seq<char>) -> Seq<char> {
    match t {
        Some(s) => s,
        None => other,
    }
}

pub open spec fn if_empty(t: Seq<char>, other: Seq<char>) -> Seq<char> {
    if t.len() == 0 {
        other
    } else {
        t
    }
}

/// The extra properties among the first `n` fields.
pub open spec fn extra_props(p: PartV, n: int) -> Seq<SexpV>
    decreases n,
{
    if n <= 0 {
        Seq::empty()
    } else {
        let before = extra_props(p, n - 1);
        let (k, v) = p.fields[n - 1];
        if k == "Datasheet"@ || k == "Description"@ {
            before
        } else {
            before.push(hidden_spec(k, text_or(json::str_in(v), json::text_of(v)), p.at))
        }
    }
}

pub open spec fn pin_nodes(pins: Seq<Pin>, ids: Seq<Seq<char>>) -> Seq<SexpV> {
    Seq::new(
        pins.len(),
        |i: int| tagged("pin"@, seq![SexpV::Str(pins[i].number@), uuid_spec(ids[i])]),
    )
}

/// The head of a part's node: symbol, place and mirror.
pub open spec fn part_head(p: PartV) -> Seq<SexpV> {
    seq![SexpV::Sym("symbol"@), tagged("lib_id"@, seq![SexpV::Str(p.lib)])] + (if p.lib_name.len()
        == 0 {
        Seq::empty()
    } else {
        seq![tagged("lib_name"@, seq![SexpV::Str(p.lib_name)])]
    }) + seq![place_spec(p.at, p.rot)] + (if p.mirror.len() == 0 {
        Seq::empty()
    } else {
        seq![flag_spec("mirror"@, p.mirror)]
    })
}

/// Unit, flags and identifier.
pub open spec fn part_flags(unit: int, dnp: bool, uuid: Seq<char>) -> Seq<SexpV> {
    seq![
        tagged("unit"@, seq![whole_num(unit)]),
        flag_spec("exclude_from_sim"@, "no"@),
        flag_spec("in_bom"@, "yes"@),
        flag_spec("on_board"@, "yes"@),
        flag_spec("dnp"@, if dnp { "yes"@ } else { "no"@ }),
        uuid_spec(uuid),
    ]
}

/// The properties that every part has.
pub open spec fn part_props(p: PartV, info: SymbolInfo, a: PairV) -> Seq<SexpV> {
    seq![
        property_spec("Reference"@, p.id, a.r, false),
        property_spec("Value"@, shown_value(p, info), a.v, p.hide_value),
        hidden_spec("Footprint"@, if_empty(p.footprint, info.footprint@), p.at),
        hidden_spec(
            "Datasheet"@,
            text_or(field_text(p, "Datasheet"@), if_empty(info.datasheet@, "~"@)),
            p.at,
        ),
        hidden_spec(
            "Description"@,
            text_or(field_text(p, "Description"@), info.description@),
            p.at,
        ),
    ]
}

/// The node of a part, given its texts, its identifier and those of its pins.
pub open spec fn part_node(
    c: TextCtx,
    project: Seq<char>,
    path: Seq<char>,
    a: PairV,
    uuid: Seq<char>,
    ids: Seq<Seq<char>>,
) -> SexpV {
    let p = c.p;
    SexpV::List(
        part_head(p) + part_flags(p.unit, p.dnp, uuid) + part_props(p, c.info, a) + extra_props(
            p,
            p.fields.len() as int,
        ) + pin_nodes(c.pins(), ids) + seq![instances_spec(project, path, p.id, p.unit)],
    )
}

/// A text as it is drawn.
pub open spec fn drawn_text(p: PartV, kind: Seq<char>, t: Seq<char>, a: AtV) -> TextItemV {
    TextItemV {
        owner: p.id,
        kind,
        text: t,
        x: a.x,
        y: a.y,
        rot: (a.rot + p.rot) % 180,
        justify: if place_text::shows_mirrored(a.rot, p.rot, p.mirror) {
            place_text::swapped_lr(a.justify)
        } else {
            a.justify
        },
        size: 127_000,
    }
}

pub open spec fn part_texts(c: TextCtx, a: PairV) -> Seq<TextItemV> {
    let r = seq![drawn_text(c.p, "ref"@, c.p.id, a.r)];
    if c.p.hide_value {
        r
    } else {
        r.push(drawn_text(c.p, "value"@, shown_value(c.p, c.info), a.v))
    }
}

/// What a part is written by: itself, its symbol and the surroundings.
pub open spec fn part_ctx(des: DesignV, p: PartV, u: Used) -> TextCtx {
    TextCtx { p, info: *u.info, src: *u.src, around: around_spec(des) }
}

/// Texts of a size that can be placed.
pub open spec fn part_texts_ok(p: PartV) -> bool {
    p.id.len() <= TEXT_MAX && p.value.len() <= TEXT_MAX
}

impl Compiler {
    fn surroundings(&self) -> (r: Around)
        requires
            self.des@.ok(),
        ensures
            r@ == around_spec(self.des@),
    {
        let mut segs: Vec<(Pt, Pt)> = Vec::new();
        let mut i: usize = 0;
        while i < self.des.wires.len()
            invariant
                i <= self.des.wires@.len(),
                segs@ == group::all_segs(self.des@.wires, i as int),
            decreases self.des.wires@.len() - i,
        {
            let w = &self.des.wires[i];
            assert(self.des@.wires[i as int] == w@);
            let ghost s0 = segs@;
            let mut k: usize = 1;
            assert(segs@ =~= s0 + crate::group::segs_of(w@, 0));
            while k < w.len()
                invariant
                    1 <= k,
                    k <= w@.len() || k == 1,
                    segs@ == s0 + crate::group::segs_of(w@, k - 1),
                decreases w@.len() - k,
            {
                segs.push((w[k - 1], w[k]));
                assert(segs@ =~= s0 + crate::group::segs_of(w@, k as int));
                k += 1;
            }
            assert(crate::group::segs_of(w@, -1) =~= crate::group::segs_of(w@, 0));
            i += 1;
        }
        let mut boxes: Vec<BBox> = Vec::new();
        i = 0;
        while i < self.des.power.len()
            invariant
                i <= self.des.power@.len(),
                self.des@.ok(),
                boxes@.len() == i,
                forall|j: int| 0 <= j < i ==> #[trigger] boxes@[j] == power_box(self.des@.power[j].at),
            decreases self.des.power@.len() - i,
        {
            assert(self.des@.power[i as int] == self.des.power@[i as int]@);
            assert(model::power_ok(self.des@.power[i as int]));
            let at = self.des.power[i].at;
            boxes.push(
                BBox {
                    x0: at.x - 300_000,
                    y0: at.y - 450_000,
                    x1: at.x + 300_000,
                    y1: at.y + 450_000,
                },
            );
            i += 1;
        }
        let r = Around { segs, boxes };
        assert(r@ =~= around_spec(self.des@));
        r
    }
}

fn string_field(p: &Part, k: &str) -> (r: Option<String>)
    ensures
        match r {
            Some(s) => field_text(p@, k@) == Some(s@),
            None => field_text(p@, k@) is None,
        },
{
    match entry(&p.fields, k) {
        Some(j) => match j.as_str() {
            Some(s) => Some(s.clone()),
            None => None,
        },
        None => None,
    }
}

fn or_text(t: Option<String>, other: &str) -> (r: String)
    ensures
        r@ == (match t {
            Some(s) => s@,
            None => other@,
        }),
{
    match t {
        Some(s) => s,
        None => other.to_owned(),
    }
}

fn nonempty_or(t: &str, other: &str) -> (r: String)
    ensures
        r@ == if_empty(t@, other@),
{
    if t.unicode_len() == 0 {
        other.to_owned()
    } else {
        t.to_owned()
    }
}

fn value_shown(p: &Part, info: &SymbolInfo) -> (r: String)
    ensures
        r@ == shown_value(p@, *info),
{
    if p.value.as_str().unicode_len() > 0 {
        p.value.clone()
    } else if info.value.as_str().unicode_len() > 0 {
        info.value.clone()
    } else {
        let parts = split(p.lib.as_str(), ':');
        assert(text::views(parts@).len() == parts@.len());
        if parts.len() > 1 {
            extract::cut_at_colon(p.lib.as_str())
        } else {
            let r = String::new();
            assert(r@ =~= Seq::empty());
            r
        }
    }
}

fn text_item(p: &Part, kind: &str, t: &str, a: &At) -> (r: TextItem)
    ensures
        r@ == drawn_text(p@, kind@, t@, a@),
        r.x == a.x && r.y == a.y && r.size == 127_000,
{
    let justify = if place_text::is_mirrored(a.rot, p.rot, p.mirror.as_str()) {
        swap_lr(a.justify.as_str())
    } else {
        a.justify.clone()
    };
    let rot: i64 = geom::floor_mod(a.rot as i64 + p.rot as i64, 180);
    TextItem {
        owner: p.id.clone(),
        kind: kind.to_owned(),
        text: t.to_owned(),
        x: a.x,
        y: a.y,
        rot: rot as i32,
        justify,
        size: 127_000,
    }
}

fn pin_node(number: &str, id: &str) -> (r: Sexp)
    ensures
        r@ == tagged("pin"@, seq![SexpV::Str(number@), uuid_spec(id@)]),
        sexp::ok(r@),
{
    let r = Nodes::tag("pin").text(number).add(uuid_node(id)).done();
    assert(r@->List_0 =~= tagged("pin"@, seq![SexpV::Str(number@), uuid_spec(id@)])->List_0);
    r
}

fn text_node(tag: &str, t: &str) -> (r: Sexp)
    ensures
        r@ == tagged(tag@, seq![SexpV::Str(t@)]),
        sexp::ok(r@),
{
    let r = Nodes::tag(tag).text(t).done();
    assert(r@->List_0 =~= tagged(tag@, seq![SexpV::Str(t@)])->List_0);
    r
}

fn unit_node(unit: i32) -> (r: Sexp)
    ensures
        r@ == tagged("unit"@, seq![whole_num(unit as int)]),
        sexp::ok(r@),
{
    let r = Nodes::tag("unit").count(unit).done();
    assert(r@->List_0 =~= tagged("unit"@, seq![whole_num(unit as int)])->List_0);
    r
}

fn write_head(p: &Part) -> (n: Nodes)
    requires
        model::part_ok(p@),
    ensures
        n@ == part_head(p@),
        sexp::all_ok(n@),
{
    let mut n = Nodes::tag("symbol").add(text_node("lib_id", p.lib.as_str()));
    if p.lib_name.as_str().unicode_len() > 0 {
        n = n.add(text_node("lib_name", p.lib_name.as_str()));
    }
    n = n.add(place_node(p.at, p.rot));
    if p.mirror.as_str().unicode_len() > 0 {
        n = n.add(flag_node("mirror", p.mirror.as_str()));
    }
    assert(n@ =~= part_head(p@));
    n
}

fn write_flags(n: Nodes, unit: i32, dnp: bool, uuid: &str) -> (r: Nodes)
    requires
        sexp::all_ok(n@),
    ensures
        r@ == n@ + part_flags(unit as int, dnp, uuid@),
        sexp::all_ok(r@),
{
    let ghost n0 = n@;
    let word = if dnp { "yes" } else { "no" };
    let r = n.add(unit_node(unit)).add(flag_node("exclude_from_sim", "no")).add(
        flag_node("in_bom", "yes"),
    ).add(flag_node("on_board", "yes")).add(flag_node("dnp", word)).add(uuid_node(uuid));
    assert(r@ =~= n0 + part_flags(unit as int, dnp, uuid@));
    r
}

fn write_props(n: Nodes, p: &Part, info: &SymbolInfo, a: &place_text::Pair) -> (r: Nodes)
    requires
        sexp::all_ok(n@),
        model::part_ok(p@),
        place_text::stored_pair(a@),
    ensures
        r@ == n@ + part_props(p@, *info, a@),
        sexp::all_ok(r@),
{
    let ghost n0 = n@;
    let value = value_shown(p, info);
    let fp = nonempty_or(p.footprint.as_str(), info.footprint.as_str());
    let ds0 = nonempty_or(info.datasheet.as_str(), "~");
    let ds = or_text(string_field(p, "Datasheet"), ds0.as_str());
    let desc = or_text(string_field(p, "Description"), info.description.as_str());
    let e1 = property("Reference", p.id.as_str(), &a.r, false);
    let e2 = property("Value", value.as_str(), &a.v, p.hide_value);
    let e3 = hidden_property("Footprint", fp.as_str(), p.at);
    let e4 = hidden_property("Datasheet", ds.as_str(), p.at);
    let e5 = hidden_property("Description", desc.as_str(), p.at);
    let ghost es = seq![e1@, e2@, e3@, e4@, e5@];
    let r = n.add(e1).add(e2).add(e3).add(e4).add(e5);
    assert(r@ =~= n0 + es);
    assert(es =~= part_props(p@, *info, a@));
    r
}

fn write_fields(n: Nodes, p: &Part) -> (r: Nodes)
    requires
        sexp::all_ok(n@),
        model::part_ok(p@),
    ensures
        r@ == n@ + extra_props(p@, p@.fields.len() as int),
        sexp::all_ok(r@),
{
    let ghost base = n@;
    let ghost pv = p@;
    let mut n = n;
    let mut i: usize = 0;
    assert(n@ =~= base + extra_props(pv, 0));
    while i < p.fields.len()
        invariant
            i <= p.fields@.len(),
            pv == p@,
            model::part_ok(pv),
            sexp::all_ok(n@),
            n@ == base + extra_props(pv, i as int),
        decreases p.fields@.len() - i,
    {
        let k = p.fields[i].0.as_str();
        assert(pv.fields[i as int] == (p.fields@[i as int].0@, p.fields@[i as int].1@));
        assert(json::ok(pv.fields[i as int].1));
        let ghost n0 = n@;
        if !same(k, "Datasheet") && !same(k, "Description") {
            let t = match p.fields[i].1.as_str() {
                Some(s) => s.clone(),
                None => p.fields[i].1.to_text(),
            };
            let e = hidden_property(k, t.as_str(), p.at);
            let ghost ev = e@;
            n = n.add(e);
            assert(extra_props(pv, i + 1) == extra_props(pv, i as int).push(ev));
            assert(n@ =~= base + extra_props(pv, i as int).push(ev));
        }
        i += 1;
    }
    n
}

fn write_pins(n: Nodes, pins: &Vec<Pin>, ids: &Vec<String>) -> (r: Nodes)
    requires
        sexp::all_ok(n@),
        ids@.len() == pins@.len(),
    ensures
        r@ == n@ + pin_nodes(pins@, text::views(ids@)),
        sexp::all_ok(r@),
{
    let ghost base = n@;
    let ghost pn = pin_nodes(pins@, text::views(ids@));
    let mut n = n;
    let mut i: usize = 0;
    assert(n@ =~= base + pn.take(0));
    while i < pins.len()
        invariant
            i <= pins@.len(),
            ids@.len() == pins@.len(),
            pn == pin_nodes(pins@, text::views(ids@)),
            sexp::all_ok(n@),
            n@ == base + pn.take(i as int),
        decreases pins@.len() - i,
    {
        assert(text::views(ids@)[i as int] == ids@[i as int]@);
        let e = pin_node(pins[i].number.as_str(), ids[i].as_str());
        assert(e@ == pn[i as int]);
        n = n.add(e);
        assert(pn.take(i + 1) =~= pn.take(i as int).push(pn[i as int]));
        assert(n@ =~= base + pn.take(i + 1));
        i += 1;
    }
    assert(pn.take(pn.len() as int) =~= pn);
    n
}

/// The node of a part, given its texts, its identifier and those of its pins.
pub(crate) fn write_part(
    p: &Part,
    info: &SymbolInfo,
    src: &SymbolInfo,
    des: &Design,
    a: &place_text::Pair,
    uuid: &str,
    ids: &Vec<String>,
    Ghost(c): Ghost<TextCtx>,
) -> (r: Sexp)
    requires
        model::part_ok(p@),
        src.wf(),
        place_text::stored_pair(a@),
        c.p == p@,
        c.info == *info,
        c.src == *src,
        ids@.len() == c.pins().len(),
    ensures
        r@ == part_node(
            c,
            des.project@,
            des.sheet_path_uuid@,
            a@,
            uuid@,
            text::views(ids@),
        ),
        sexp::ok(r@),
{
    let n = write_head(p);
    let n = write_flags(n, p.unit, p.dnp, uuid);
    let n = write_props(n, p, info, a);
    let n = write_fields(n, p);
    let n = write_pins(n, src.pins_for_unit(p.unit), ids);
    let ghost before = n@;
    let e = instances(des, p.id.as_str(), p.unit);
    let ghost ev = e@;
    let r = n.add(e).done();
    assert(before.push(ev) =~= before + seq![ev]);
    r
}

/// The texts that a part shows.
fn shown_items(p: &Part, info: &SymbolInfo, a: &place_text::Pair, Ghost(c): Ghost<TextCtx>) -> (r: Vec<
    TextItem,
>)
    requires
        place_text::stored_pair(a@),
        c.p == p@,
        c.info == *info,
    ensures
        items_v(r@) == part_texts(c, a@),
        items_ok(r@),
{
    let value = value_shown(p, info);
    let mut r: Vec<TextItem> = Vec::new();
    r.push(text_item(p, "ref", p.id.as_str(), &a.r));
    if !p.hide_value {
        r.push(text_item(p, "value", value.as_str(), &a.v));
    }
    assert(items_v(r@) =~= part_texts(c, a@));
    r
}

impl Compiler {
    fn note_items(&mut self, items: Vec<TextItem>)
        requires
            old(self).wf(),
            items_ok(items@),
        ensures
            final(self).wf(),
            final(self).des == old(self).des,
            final(self).shelf == old(self).shelf,
            final(self).state() == (StateV {
                texts: old(self).state().texts + items_v(items@),
                ..old(self).state()
            }),
    {
        let ghost st = self.state();
        let ghost t0 = self.text_items@;
        let ghost i0 = items@;
        let mut items = items;
        self.text_items.append(&mut items);
        assert(self.text_items@ =~= t0 + i0);
        assert(items_v(self.text_items@) =~= items_v(t0) + items_v(i0));
        assert(self.state() =~= StateV { texts: st.texts + items_v(i0), ..st });
    }

    /// Writes a part: embeds its symbol, places its texts and notes them. The identifiers of its
    /// pins, and its own where it has none, are made up.
    pub fn emit_part(&mut self, k: usize) -> (r: Option<Sexp>)
        requires
            old(self).wf(),
            k < old(self).des.parts@.len(),
            part_texts_ok(old(self).des@.parts[k as int]),
        ensures
            final(self).wf(),
            final(self).des == old(self).des,
            final(self).shelf == old(self).shelf,
            emitted(
                old(self).state(),
                old(self).des@,
                old(self).shelf,
                old(self).des@.parts[k as int],
                final(self).state(),
                sexp_v(r),
            ),
            r is Some ==> sexp::ok(r->0@),
    {
        let lib = self.des.parts[k].lib.clone();
        let name = self.des.parts[k].lib_name.clone();
        let ghost pv = self.des@.parts[k as int];
        assert(pv == self.des.parts@[k as int]@);
        assert(model::part_ok(pv));
        let u = match self.resolve_lib(lib.as_str(), name.as_str()) {
            Some(u) => u,
            None => {
                return None;
            },
        };
        let ghost st = self.state();
        let ghost mut lv: SexpV = SexpV::Int(0);
        let ghost mut idv: (Seq<char>, Seq<Seq<char>>) = (Seq::empty(), Seq::empty());
        let key = if name.as_str().unicode_len() == 0 { lib } else { name };
        let around = self.surroundings();
        let ghost c = part_ctx(self.des@, pv, u);
        let (node, items) = match find_named(&self.libs, key.as_str()) {
            Some(libnode) => {
                proof {
                    order_map::lemma_seek(sexp::named_v(self.libs@), key@, 0);
                    let i = order_map::seek(sexp::named_v(self.libs@), key@, 0);
                    assert(sexp::ok(sexp::named_v(self.libs@)[i].1));
                }
                let p = &self.des.parts[k];
                let placer = Placer { p, info: &u.info, src: &u.src, around: &around };
                assert(placer.ctx() == c);
                let a = placer.places(libnode);
                let uuid = if p.uuid.as_str().unicode_len() == 0 {
                    new_uuid()
                } else {
                    p.uuid.clone()
                };
                let n: usize = u.src.pins_for_unit(p.unit).len();
                let ids = fresh_ids(n);
                let node = write_part(
                    p,
                    &u.info,
                    &u.src,
                    &self.des,
                    &a,
                    uuid.as_str(),
                    &ids,
                    Ghost(c),
                );
                let items = shown_items(p, &u.info, &a, Ghost(c));
                proof {
                    lv = libnode@;
                    idv = (uuid@, text::views(ids@));
                }
                (node, items)
            },
            None => {
                return None;
            },
        };
        let ghost iv = items_v(items@);
        self.note_items(items);
        proof {
            assert(order_map::look(st.libs, key@) == Some(lv));
            assert(iv == part_texts(c, place_text::text_places(c, lv)));
            assert(written(c, self.des@, lv, node@, idv.0, idv.1));
            assert(lib_key(pv.lib, pv.lib_name) == key@);
            lemma_emitted(
                old(self).state(),
                old(self).des@,
                old(self).shelf,
                pv,
                self.state(),
                node@,
                st,
                u,
                lv,
                idv.0,
                idv.1,
            );
        }
        Some(node)
    }
}

pub open spec fn sexp_v(n: Option<Sexp>) -> Option<SexpV> {
    match n {
        Some(x) => Some(x@),
        None => None,
    }
}

/// The node of a part is written with these identifiers; its own stays where it has one.
pub open spec fn written(
    c: TextCtx,
    des: DesignV,
    libnode: SexpV,
    node: SexpV,
    uuid: Seq<char>,
    ids: Seq<Seq<char>>,
) -> bool {
    &&& if c.p.uuid.len() > 0 {
        uuid == c.p.uuid
    } else {
        ids::is_uuid(uuid)
    }
    &&& ids.len() == c.pins().len()
    &&& made_up(ids)
    &&& node == part_node(
        c,
        des.project,
        des.sheet_path_uuid,
        place_text::text_places(c, libnode),
        uuid,
        ids,
    )
}

proof fn lemma_emitted(
    before: StateV,
    des: DesignV,
    shelf: Shelf,
    p: PartV,
    after: StateV,
    node: SexpV,
    st: StateV,
    u: Used,
    libnode: SexpV,
    uuid: Seq<char>,
    ids: Seq<Seq<char>>,
)
    requires
        resolved(before, des, shelf, p.lib, p.lib_name) == (st, Some(u)),
        order_map::look(st.libs, lib_key(p.lib, p.lib_name)) == Some(libnode),
        written(part_ctx(des, p, u), des, libnode, node, uuid, ids),
        after == (StateV {
            texts: st.texts + part_texts(
                part_ctx(des, p, u),
                place_text::text_places(part_ctx(des, p, u), libnode),
            ),
            ..st
        }),
    ensures
        emitted(before, des, shelf, p, after, Some(node)),
{
}

/// What writing a part gives: nothing where its symbol is unknown, else its node, with made-up
/// identifiers for its pins, and its texts noted.
pub open spec fn emitted(
    before: StateV,
    des: DesignV,
    shelf: Shelf,
    p: PartV,
    after: StateV,
    node: Option<SexpV>,
) -> bool {
    let rs = resolved(before, des, shelf, p.lib, p.lib_name);
    let found = order_map::look(rs.0.libs, lib_key(p.lib, p.lib_name));
    if rs.1 is None || found is None {
        node is None && after == rs.0
    } else {
        let c = part_ctx(des, p, rs.1->0);
        &&& node is Some
        &&& written_somehow(c, des, found->0, node->0)
        &&& after == (StateV {
            texts: rs.0.texts + part_texts(c, place_text::text_places(c, found->0)),
            ..rs.0
        })
    }
}

/// The node of a part is written with some identifiers.
pub open spec fn written_somehow(c: TextCtx, des: DesignV, libnode: SexpV, node: SexpV) -> bool {
    exists|uuid: Seq<char>, ids: Seq<Seq<char>>| #[trigger]
        written(c, des, libnode, node, uuid, ids)
}

// ---------------------------------------------------------------- power symbols

/// The power symbol that draws a net: its own where there is one, else a generic ground or supply.
pub open spec fn power_lib_spec(net: Seq<char>, symbols: Seq<(Seq<char>, SexpV)>, index: SymbolIndex) -> Seq<
    char,
> {
    let own = "power:"@ + net;
    if order_map::look(symbols, own) is Some || index.found(own) is Some {
        own
    } else if geo::gnd_spec(net) {
        "power:GND"@
    } else {
        "power:VCC"@
    }
}

pub fn power_lib_for(net: &str, symbols: &Vec<(String, Sexp)>, index: &SymbolIndex) -> (r: String)
    ensures
        r@ == power_lib_spec(net@, sexp::named_v(symbols@), *index),
{
    let mut own = "power:".to_owned();
    own.append(net);
    if find_named(symbols, own.as_str()).is_some() || index.get(own.as_str()).is_some() {
        return own;
    }
    if ground_like(net) {
        "power:GND".to_owned()
    } else {
        "power:VCC".to_owned()
    }
}

/// A number with at least three digits.
pub open spec fn three_digits(n: nat) -> Seq<char> {
    let d = text::digits(n);
    if d.len() == 1 {
        "00"@ + d
    } else if d.len() == 2 {
        "0"@ + d
    } else {
        d
    }
}

pub open spec fn power_ref(n: nat) -> Seq<char> {
    "#PWR"@ + three_digits(n)
}

fn make_ref(n: u64) -> (r: String)
    ensures
        r@ == power_ref(n as nat),
{
    let d = decimal_u64(n);
    let k: usize = d.as_str().unicode_len();
    let pad = if k == 1 {
        "00"
    } else if k == 2 {
        "0"
    } else {
        ""
    };
    let r = concat3("#PWR", pad, d.as_str());
    proof {
        reveal_strlit("");
        assert(k >= 3 ==> r@ =~= power_ref(n as nat)) by {
            lemma_digits_len(n as nat);
        }
        assert(r@ =~= power_ref(n as nat)) by {
            lemma_digits_len(n as nat);
        }
    }
    r
}

proof fn lemma_digits_len(n: nat)
    ensures
        text::digits(n).len() >= 1,
    decreases n,
{
    if n >= 10 {
        lemma_digits_len(n / 10);
    }
}

/// The symbol that a power symbol uses.
pub open spec fn power_lib_of(w: PowerV, des: DesignV, shelf: Shelf) -> Seq<char> {
    let lib = if w.lib.len() == 0 {
        power_lib_spec(w.net, des.lib_symbols, shelf.index)
    } else {
        w.lib
    };
    if order_map::look(des.lib_symbols, lib) is None && shelf.index.found(lib) is None {
        power_lib_spec(w.net, des.lib_symbols, shelf.index)
    } else {
        lib
    }
}

/// Where a power symbol's own origin is.
pub open spec fn power_origin(w: PowerV, u: Used) -> Pt {
    let (px, py) = if u.src.pins@.len() > 0 {
        symlib::turned(
            u.src.pins@[0].x as int,
            u.src.pins@[0].y as int,
            w.rot,
            symlib::mirror_spec(w.mirror),
        )
    } else {
        (0, 0)
    };
    Pt { x: place_text::r4(w.at.x - px) as i64, y: place_text::r4(w.at.y - py) as i64 }
}

/// A power symbol seen as a part.
pub open spec fn power_part(w: PowerV, lib: Seq<char>, reference: Seq<char>, at: Pt) -> PartV {
    PartV {
        id: reference,
        lib,
        at,
        rot: w.rot,
        mirror: w.mirror,
        value: Seq::empty(),
        unit: 1,
        footprint: Seq::empty(),
        dnp: false,
        fields: Seq::empty(),
        ref_at: None,
        val_at: None,
        hide_value: false,
        uuid: Seq::empty(),
        lib_name: Seq::empty(),
    }
}

pub open spec fn power_shown(w: PowerV) -> Seq<char> {
    if_empty(w.value, w.net)
}

/// Where the value of a power symbol stands.
pub open spec fn power_value_at(w: PowerV, fake: PartV, libnode: SexpV) -> AtV {
    match w.val_at {
        Some(a) => place_text::given(a),
        None => place_text::library_at(fake, sexp::prop_of(libnode, "Value"@)),
    }
}

/// The node of a power symbol, given its identifier and that of its pin.
pub open spec fn power_node(
    w: PowerV,
    u: Used,
    lib: Seq<char>,
    reference: Seq<char>,
    libnode: SexpV,
    des: DesignV,
    uuid: Seq<char>,
    pin_id: Seq<char>,
) -> SexpV {
    let at = power_origin(w, u);
    let fake = power_part(w, lib, reference, at);
    let rp = place_text::library_at(fake, sexp::prop_of(libnode, "Reference"@));
    let empty_at = AtV { rot: 0, justify: Seq::empty(), ..rp };
    SexpV::List(
        part_head(fake) + part_flags(1, false, uuid) + seq![
            property_spec("Reference"@, reference, empty_at, true),
            property_spec(
                "Value"@,
                power_shown(w),
                power_value_at(w, fake, libnode),
                w.hide_value,
            ),
            hidden_spec("Footprint"@, ""@, at),
            hidden_spec("Datasheet"@, ""@, at),
            hidden_spec("Description"@, u.info.description@, at),
            tagged(
                "pin"@,
                seq![
                    SexpV::Str(
                        if u.src.pins@.len() > 0 {
                            u.src.pins@[0].number@
                        } else {
                            "1"@
                        },
                    ),
                    uuid_spec(pin_id),
                ],
            ),
            instances_spec(des.project, des.sheet_path_uuid, reference, 1),
        ],
    )
}

pub open spec fn power_written(
    w: PowerV,
    u: Used,
    lib: Seq<char>,
    reference: Seq<char>,
    libnode: SexpV,
    des: DesignV,
    node: SexpV,
) -> bool {
    exists|uuid: Seq<char>, pin_id: Seq<char>|
        (if w.uuid.len() > 0 {
            uuid == w.uuid
        } else {
            ids::is_uuid(uuid)
        }) && ids::is_uuid(pin_id) && node == #[trigger] power_node(
            w,
            u,
            lib,
            reference,
            libnode,
            des,
            uuid,
            pin_id,
        )
}

/// What writing the `k`-th power symbol gives: nothing where no symbol is found, else its node; the
/// symbol and reference that it uses are noted with it.
pub open spec fn power_emitted(
    st: StateV,
    des: DesignV,
    shelf: Shelf,
    k: int,
    n: nat,
    after: StateV,
    power: Seq<PowerV>,
    node: Option<SexpV>,
) -> bool {
    let w = des.power[k];
    let lib = power_lib_of(w, des, shelf);
    let rs = resolved(st, des, shelf, lib, Seq::empty());
    let reference = if_empty(w.reference, power_ref(n));
    let found = order_map::look(rs.0.libs, lib);
    if rs.1 is None {
        node is None && after == rs.0 && power == des.power
    } else {
        &&& power == des.power.update(k, PowerV { lib, reference, ..w })
        &&& if found is None {
            node is None && after == rs.0
        } else {
            let u = rs.1->0;
            let fake = power_part(w, lib, reference, power_origin(w, u));
            let vp = power_value_at(w, fake, found->0);
            &&& node is Some
            &&& power_written(w, u, lib, reference, found->0, des, node->0)
            &&& after == (StateV {
                texts: rs.0.texts.push(
                    TextItemV {
                        owner: reference,
                        kind: "power"@,
                        text: power_shown(w),
                        x: vp.x,
                        y: vp.y,
                        rot: vp.rot,
                        justify: vp.justify,
                        size: 127_000,
                    },
                ),
                ..rs.0
            })
        }
    }
}

fn write_power(
    w: &Power,
    u: &Used,
    lib: &str,
    reference: &str,
    libnode: &Sexp,
    des: &Design,
    uuid: &str,
    pin_id: &str,
    rp: At,
    vp: &At,
    at: Pt,
) -> (r: Sexp)
    requires
        at == power_origin(w@, *u),
        place_text::roomy(at.x as int) && place_text::roomy(at.y as int),
        rp@ == place_text::library_at(
            power_part(w@, lib@, reference@, at),
            sexp::prop_of(libnode@, "Reference"@),
        ),
        vp@ == power_value_at(w@, power_part(w@, lib@, reference@, at), libnode@),
        place_text::at_ok(rp@),
        place_text::at_ok(vp@),
    ensures
        r@ == power_node(w@, *u, lib@, reference@, libnode@, des@, uuid@, pin_id@),
        sexp::ok(r@),
{
    let ghost fake = power_part(w@, lib@, reference@, at);
    let mut n = Nodes::tag("symbol").add(text_node("lib_id", lib)).add(place_node(at, w.rot));
    if w.mirror.as_str().unicode_len() > 0 {
        n = n.add(flag_node("mirror", w.mirror.as_str()));
    }
    assert(n@ =~= part_head(fake));
    let n = write_flags(n, 1, false, uuid);
    let ghost base = n@;
    let none = String::new();
    assert(none@ =~= Seq::empty());
    let bare = At { x: rp.x, y: rp.y, rot: 0, justify: none };
    let shown = nonempty_or(w.value.as_str(), w.net.as_str());
    let number = if u.src.pins.len() > 0 {
        u.src.pins[0].number.clone()
    } else {
        "1".to_owned()
    };
    let e1 = property("Reference", reference, &bare, true);
    let e2 = property("Value", shown.as_str(), vp, w.hide_value);
    let e3 = hidden_property("Footprint", "", at);
    let e4 = hidden_property("Datasheet", "", at);
    let e5 = hidden_property("Description", u.info.description.as_str(), at);
    let e6 = pin_node(number.as_str(), pin_id);
    let e7 = instances(des, reference, 1);
    let ghost es = seq![e1@, e2@, e3@, e4@, e5@, e6@, e7@];
    let r = n.add(e1).add(e2).add(e3).add(e4).add(e5).add(e6).add(e7).done();
    assert(r@->List_0 =~= base + es);
    assert(bare@ =~= AtV { rot: 0, justify: Seq::empty(), ..rp@ });
    assert(es =~= power_node(w@, *u, lib@, reference@, libnode@, des@, uuid@, pin_id@)->List_0.skip(
        base.len() as int,
    ));
    assert(r@->List_0 =~= power_node(
        w@,
        *u,
        lib@,
        reference@,
        libnode@,
        des@,
        uuid@,
        pin_id@,
    )->List_0);
    r
}

impl Compiler {
    /// Writes a power symbol and notes which symbol and reference it uses.
    pub fn emit_power(&mut self, k: usize, n: u64) -> (r: Option<Sexp>)
        requires
            old(self).wf(),
            k < old(self).des.power@.len(),
        ensures
            final(self).wf(),
            final(self).shelf == old(self).shelf,
            final(self).des@ == (DesignV { power: final(self).des@.power, ..old(self).des@ }),
            power_emitted(
                old(self).state(),
                old(self).des@,
                old(self).shelf,
                k as int,
                n as nat,
                final(self).state(),
                final(self).des@.power,
                sexp_v(r),
            ),
            r is Some ==> sexp::ok(r->0@),
    {
        let ghost d0 = self.des@;
        let ghost w0 = self.des@.power[k as int];
        assert(w0 == self.des.power@[k as int]@);
        assert(model::power_ok(w0));
        let net = self.des.power[k].net.clone();
        let mut lib = if self.des.power[k].lib.as_str().unicode_len() == 0 {
            power_lib_for(net.as_str(), &self.des.lib_symbols, &self.shelf.index)
        } else {
            self.des.power[k].lib.clone()
        };
        if find_named(&self.des.lib_symbols, lib.as_str()).is_none() && self.shelf.index.get(
            lib.as_str(),
        ).is_none() {
            lib = power_lib_for(net.as_str(), &self.des.lib_symbols, &self.shelf.index);
        }
        assert(lib@ == power_lib_of(w0, d0, self.shelf));
        proof {
            reveal_strlit("");
            assert(""@ =~= Seq::<char>::empty());
        }
        let u = match self.resolve_lib(lib.as_str(), "") {
            Some(u) => u,
            None => {
                return None;
            },
        };
        let ghost st = self.state();
        let reference = if self.des.power[k].reference.as_str().unicode_len() == 0 {
            make_ref(n)
        } else {
            self.des.power[k].reference.clone()
        };
        let mut off: (i64, i64) = (0, 0);
        if u.src.pins.len() > 0 {
            assert(symlib::pin_ok(u.src.pins@[0]));
            let w = &self.des.power[k];
            off = rot_point(
                u.src.pins[0].x,
                u.src.pins[0].y,
                w.rot,
                mirror_of(w.mirror.as_str()),
            );
        }
        let at = Pt {
            x: round_to(self.des.power[k].at.x - off.0, 10),
            y: round_to(self.des.power[k].at.y - off.1, 10),
        };
        assert(at == power_origin(w0, u));
        let ghost fake = power_part(w0, lib@, reference@, at);
        let mut node: Option<Sexp> = None;
        if let Some(libnode) = find_named(&self.libs, lib.as_str()) {
            proof {
                order_map::lemma_seek(sexp::named_v(self.libs@), lib@, 0);
                let i = order_map::seek(sexp::named_v(self.libs@), lib@, 0);
                assert(sexp::ok(sexp::named_v(self.libs@)[i].1));
            }
            let w = &self.des.power[k];
            let rp = library_anchor(
                at,
                w.rot,
                w.mirror.as_str(),
                libnode.prop("Reference"),
                Ghost(fake),
            );
            let vp = match &w.val_at {
                Some(a) => from_anchor(a),
                None => library_anchor(
                    at,
                    w.rot,
                    w.mirror.as_str(),
                    libnode.prop("Value"),
                    Ghost(fake),
                ),
            };
            let uuid = if w.uuid.as_str().unicode_len() == 0 {
                new_uuid()
            } else {
                w.uuid.clone()
            };
            let pin_id = new_uuid();
            let e = write_power(
                w,
                &u,
                lib.as_str(),
                reference.as_str(),
                libnode,
                &self.des,
                uuid.as_str(),
                pin_id.as_str(),
                rp,
                &vp,
                at,
            );
            assert(power_written(w0, u, lib@, reference@, libnode@, d0, e@)) by {
                assert(e@ == power_node(
                    w0,
                    u,
                    lib@,
                    reference@,
                    libnode@,
                    d0,
                    uuid@,
                    pin_id@,
                ));
            }
            let item = TextItem {
                owner: reference.clone(),
                kind: "power".to_owned(),
                text: nonempty_or(w.value.as_str(), w.net.as_str()),
                x: vp.x,
                y: vp.y,
                rot: vp.rot,
                justify: vp.justify,
                size: 127_000,
            };
            let ghost t0 = self.text_items@;
            let ghost iv = item@;
            self.text_items.push(item);
            proof {
                assert(items_v(self.text_items@) =~= items_v(t0).push(iv));
                assert(self.state() =~= StateV { texts: st.texts.push(iv), ..st });
            }
            node = Some(e);
        }
        let ghost p0 = self.des.power@;
        let ghost refv = reference@;
        let ghost libv = lib@;
        self.des.power[k].lib = lib;
        self.des.power[k].reference = reference;
        proof {
            let want = PowerV { lib: libv, reference: refv, ..w0 };
            assert(self.des.power@[k as int]@ =~= want);
            assert(model::powers_v(self.des.power@) =~= model::powers_v(p0).update(k as int, want));
            assert(self.des@ =~= DesignV { power: self.des@.power, ..d0 });
            assert forall|i: int| 0 <= i < self.des@.power.len() implies model::power_ok(
                #[trigger] self.des@.power[i],
            ) by {
                assert(model::power_ok(d0.power[i]));
            }
        }
        node
    }
}

// ---------------------------------------------------------------- the sheet

pub open spec fn cut_to(t: Seq<char>, n: int) -> Seq<char> {
    t.take(geom::lo(t.len() as int, n))
}

pub open spec fn head_text(tag: Seq<char>, t: Seq<char>) -> Seq<SexpV> {
    if t.len() == 0 {
        Seq::empty()
    } else {
        seq![tagged(tag, seq![SexpV::Str(t)])]
    }
}

pub open spec fn comment_nodes(comments: Seq<Seq<char>>) -> Seq<SexpV> {
    Seq::new(
        geom::lo(comments.len() as int, 9) as nat,
        |i: int|
            tagged("comment"@, seq![SexpV::Int(i + 1), SexpV::Str(cut_to(comments[i], 75))]),
    )
}

/// The entries of the title block.
pub open spec fn title_entries(des: DesignV) -> Seq<SexpV> {
    head_text("title"@, cut_to(des.title, 70)) + head_text("date"@, des.date) + head_text(
        "rev"@,
        des.rev,
    ) + head_text("company"@, des.company) + comment_nodes(des.comments)
}

pub open spec fn sheet_head(des: DesignV) -> Seq<SexpV> {
    seq![
        SexpV::Sym("kicad_sch"@),
        tagged("version"@, seq![SexpV::Int(VERSION as int)]),
        tagged("generator"@, seq![SexpV::Str("eeschema"@)]),
        tagged("generator_version"@, seq![SexpV::Str("9.0"@)]),
        uuid_spec(des.uuid),
        tagged("paper"@, seq![SexpV::Str(des.paper)]),
    ] + (if title_entries(des).len() == 0 {
        Seq::empty()
    } else {
        seq![tagged("title_block"@, title_entries(des))]
    })
}

/// Symbol nodes in the order of their names.
pub open spec fn sorted_libs(libs: Seq<(Seq<char>, SexpV)>) -> Seq<SexpV> {
    let o = crate::order::by_name(
        Seq::new(libs.len(), |i: int| 0i64),
        Seq::new(libs.len(), |i: int| libs[i].0),
    );
    Seq::new(libs.len(), |i: int| libs[o[i]].1)
}

pub open spec fn point_spec(tag: Seq<char>, p: Pt) -> SexpV {
    tagged(tag, seq![mm(p.x as int), mm(p.y as int)])
}

pub open spec fn junction_node(p: Pt, id: Seq<char>) -> SexpV {
    tagged(
        "junction"@,
        seq![
            point_spec("at"@, p),
            tagged("diameter"@, seq![SexpV::Int(0)]),
            tagged("color"@, seq![SexpV::Int(0), SexpV::Int(0), SexpV::Int(0), SexpV::Int(0)]),
            uuid_spec(id),
        ],
    )
}

pub open spec fn nc_node(p: Pt, id: Seq<char>) -> SexpV {
    tagged("no_connect"@, seq![point_spec("at"@, p), uuid_spec(id)])
}

pub open spec fn stroke_spec() -> SexpV {
    tagged(
        "stroke"@,
        seq![
            tagged("width"@, seq![SexpV::Int(0)]),
            tagged("type"@, seq![SexpV::Sym("default"@)]),
        ],
    )
}

pub open spec fn wire_node(s: (Pt, Pt), id: Seq<char>) -> SexpV {
    tagged(
        "wire"@,
        seq![
            tagged("pts"@, seq![point_spec("xy"@, s.0), point_spec("xy"@, s.1)]),
            stroke_spec(),
            uuid_spec(id),
        ],
    )
}

pub open spec fn rect_node(r: model::RectV, id: Seq<char>) -> SexpV {
    tagged(
        "rectangle"@,
        seq![
            point_spec("start"@, r.start),
            point_spec("end"@, r.end),
            stroke_spec(),
            tagged("fill"@, seq![tagged("type"@, seq![SexpV::Sym("none"@)])]),
            uuid_spec(if_empty(r.uuid, id)),
        ],
    )
}

pub open spec fn text_node_spec(t: model::TextV, id: Seq<char>) -> SexpV {
    tagged(
        "text"@,
        seq![
            SexpV::Str(t.text),
            flag_spec("exclude_from_sim"@, "no"@),
            place_spec(t.at, t.rot),
            font_spec(t.size, t.bold, false, t.justify),
            uuid_spec(if_empty(t.uuid, id)),
        ],
    )
}

/// The justification of a label: its text leaves the anchor along its direction.
pub open spec fn label_justify_spec(kind: Seq<char>, rot: int) -> Seq<char> {
    let r = rot % 360;
    if kind == "local"@ {
        if r == 0 || r == 90 {
            "left bottom"@
        } else {
            "right bottom"@
        }
    } else if r == 0 || r == 90 {
        "left"@
    } else {
        "right"@
    }
}

pub fn label_justify(l: &Label) -> (r: String)
    ensures
        r@ == label_justify_spec(l.kind@, l.rot as int),
{
    let q: i64 = geom::floor_mod(l.rot as i64, 360);
    let along = q == 0 || q == 90;
    let t = if same(l.kind.as_str(), "local") {
        if along {
            "left bottom"
        } else {
            "right bottom"
        }
    } else if along {
        "left"
    } else {
        "right"
    };
    t.to_owned()
}

pub open spec fn label_tag(kind: Seq<char>) -> Seq<char> {
    if kind == "global"@ {
        "global_label"@
    } else if kind == "hier"@ {
        "hierarchical_label"@
    } else {
        "label"@
    }
}

pub open spec fn label_node(l: LabelV, id: Seq<char>) -> SexpV {
    tagged(
        label_tag(l.kind),
        seq![SexpV::Str(l.text)] + (if l.kind == "local"@ {
            Seq::empty()
        } else {
            seq![flag_spec("shape"@, l.shape)]
        }) + seq![
            place_spec(l.at, l.rot),
            font_spec(
                127_000,
                false,
                false,
                if_empty(l.justify, label_justify_spec(l.kind, l.rot)),
            ),
            uuid_spec(if_empty(l.uuid, id)),
        ],
    )
}

/// Identifiers made up for a sheet.
#[verifier::ext_equal]
pub struct IdsV {
    pub junctions: Seq<Seq<char>>,
    pub nc: Seq<Seq<char>>,
    pub wires: Seq<Seq<char>>,
    pub rects: Seq<Seq<char>>,
    pub texts: Seq<Seq<char>>,
    pub labels: Seq<Seq<char>>,
}

pub open spec fn tail_nodes() -> Seq<SexpV> {
    seq![
        tagged(
            "sheet_instances"@,
            seq![
                tagged(
                    "path"@,
                    seq![SexpV::Str("/"@), tagged("page"@, seq![SexpV::Str("1"@)])],
                ),
            ],
        ),
        flag_spec("embedded_fonts"@, "no"@),
    ]
}

/// The identifiers that the segments of the first `n` wires keep: the first segment of a wire keeps
/// the wire's own, the others have none.
pub open spec fn kept_ids(wires: Seq<Seq<Pt>>, uuids: Seq<Seq<char>>, n: int) -> Seq<Seq<char>>
    decreases n,
{
    if n <= 0 {
        Seq::empty()
    } else {
        kept_ids(wires, uuids, n - 1) + Seq::new(
            group::segs_of(wires[n - 1], wires[n - 1].len() - 1).len(),
            |k: int|
                if k == 0 && n - 1 < uuids.len() {
                    uuids[n - 1]
                } else {
                    Seq::empty()
                },
        )
    }
}

/// The node of a segment of the wires: it bears the identifier that it keeps, else a made-up one.
pub open spec fn segment_node(des: DesignV, ids: IdsV, i: int) -> SexpV {
    let n = des.wires.len() as int;
    wire_node(
        group::all_segs(des.wires, n)[i],
        if_empty(kept_ids(des.wires, des.wire_uuids, n)[i], ids.wires[i]),
    )
}

/// Everything on the sheet that is no symbol.
pub open spec fn drawn_nodes(des: DesignV, junctions: Seq<Pt>, ids: IdsV) -> Seq<SexpV> {
    let segs = group::all_segs(des.wires, des.wires.len() as int);
    Seq::new(junctions.len(), |i: int| junction_node(junctions[i], ids.junctions[i])) + Seq::new(
        des.nc.len(),
        |i: int| nc_node(des.nc[i], ids.nc[i]),
    ) + Seq::new(segs.len(), |i: int| segment_node(des, ids, i)) + Seq::new(
        des.rects.len(),
        |i: int| rect_node(des.rects[i], ids.rects[i]),
    ) + Seq::new(des.texts.len(), |i: int| text_node_spec(des.texts[i], ids.texts[i])) + Seq::new(
        des.labels.len(),
        |i: int| label_node(des.labels[i], ids.labels[i]),
    )
}

/// The node of a sheet.
pub open spec fn sheet_spec(
    des: DesignV,
    libs: Seq<(Seq<char>, SexpV)>,
    junctions: Seq<Pt>,
    symbols: Seq<SexpV>,
    ids: IdsV,
) -> SexpV {
    SexpV::List(
        sheet_head(des) + seq![tagged("lib_symbols"@, sorted_libs(libs))] + drawn_nodes(
            des,
            junctions,
            ids,
        ) + symbols + des.extra_nodes + tail_nodes(),
    )
}

pub(crate) fn first_chars(t: &str, n: usize) -> (r: String)
    ensures
        r@ == cut_to(t@, n as int),
{
    let v = text::chars_of(t);
    let mut r = String::new();
    let mut i: usize = 0;
    assert(r@ =~= t@.take(0));
    while i < v.len() && i < n
        invariant
            i <= v@.len(),
            i <= n,
            v@ == t@,
            r@ == t@.take(i as int),
        decreases v@.len() - i,
    {
        assert(t@.take(i + 1) =~= t@.take(i as int).push(t@[i as int]));
        r.push(v[i]);
        i += 1;
    }
    r
}

fn add_text_entry(n: Nodes, tag: &str, t: &str) -> (r: Nodes)
    requires
        sexp::all_ok(n@),
    ensures
        r@ == n@ + head_text(tag@, t@),
        sexp::all_ok(r@),
{
    let ghost n0 = n@;
    if t.unicode_len() == 0 {
        assert(n0 + head_text(tag@, t@) =~= n0);
        n
    } else {
        let r = n.add(text_node(tag, t));
        assert(r@ =~= n0 + head_text(tag@, t@));
        r
    }
}

fn int_node(tag: &str, v: i64) -> (r: Sexp)
    ensures
        r@ == tagged(tag@, seq![SexpV::Int(v as int)]),
        sexp::ok(r@),
{
    let r = Nodes::tag(tag).add(Sexp::Int(v)).done();
    assert(r@->List_0 =~= tagged(tag@, seq![SexpV::Int(v as int)])->List_0);
    r
}

fn write_title(des: &Design) -> (r: Nodes)
    ensures
        r@ == seq![SexpV::Sym("title_block"@)] + title_entries(des@),
        sexp::all_ok(r@),
{
    let n = Nodes::tag("title_block");
    let title = first_chars(des.title.as_str(), 70);
    let n = add_text_entry(n, "title", title.as_str());
    let n = add_text_entry(n, "date", des.date.as_str());
    let n = add_text_entry(n, "rev", des.rev.as_str());
    let n = add_text_entry(n, "company", des.company.as_str());
    let ghost base = n@;
    let ghost cs = comment_nodes(des@.comments);
    let mut n = n;
    let mut i: usize = 0;
    assert(n@ =~= base + cs.take(0));
    while i < des.comments.len() && i < 9
        invariant
            i <= des.comments@.len(),
            i <= 9,
            cs == comment_nodes(des@.comments),
            sexp::all_ok(n@),
            n@ == base + cs.take(i as int),
        decreases des.comments@.len() - i,
    {
        let t = first_chars(des.comments[i].as_str(), 75);
        assert(des@.comments[i as int] == des.comments@[i as int]@);
        let e = Nodes::tag("comment").add(Sexp::Int(i as i64 + 1)).text(t.as_str()).done();
        assert(e@->List_0 =~= cs[i as int]->List_0);
        n = n.add(e);
        assert(cs.take(i + 1) =~= cs.take(i as int).push(cs[i as int]));
        assert(n@ =~= base + cs.take(i + 1));
        i += 1;
    }
    assert(cs.take(cs.len() as int) =~= cs);
    assert(n@ =~= seq![SexpV::Sym("title_block"@)] + title_entries(des@));
    n
}

fn write_sheet_head(des: &Design) -> (r: Nodes)
    ensures
        r@ == sheet_head(des@),
        sexp::all_ok(r@),
{
    let n = Nodes::tag("kicad_sch").add(int_node("version", VERSION)).add(
        text_node("generator", "eeschema"),
    ).add(text_node("generator_version", "9.0")).add(uuid_node(des.uuid.as_str())).add(
        text_node("paper", des.paper.as_str()),
    );
    let ghost n0 = n@;
    let tb = write_title(des);
    let ghost tv = tb@;
    assert(tv.len() == 1 + title_entries(des@).len());
    assert(tv.len() == tb.v@.len());
    if tb.v.len() > 1 {
        let e = tb.done();
        let ghost ev = e@;
        assert(ev == tagged("title_block"@, title_entries(des@)));
        let r = n.add(e);
        assert(r@ =~= sheet_head(des@));
        r
    } else {
        assert(title_entries(des@).len() == 0);
        assert(n0 =~= sheet_head(des@));
        n
    }
}

fn point_node(tag: &str, p: Pt) -> (r: Sexp)
    requires
        place_text::roomy(p.x as int) && place_text::roomy(p.y as int),
    ensures
        r@ == point_spec(tag@, p),
        sexp::ok(r@),
{
    let r = Nodes::tag(tag).coord(p.x).coord(p.y).done();
    assert(r@->List_0 =~= point_spec(tag@, p)->List_0);
    r
}

fn stroke() -> (r: Sexp)
    ensures
        r@ == stroke_spec(),
        sexp::ok(r@),
{
    let r = Nodes::tag("stroke").add(int_node("width", 0)).add(flag_node("type", "default")).done();
    assert(r@->List_0 =~= stroke_spec()->List_0);
    r
}

fn fresh_ids(n: usize) -> (r: Vec<String>)
    ensures
        r@.len() == n,
        made_up(text::views(r@)),
{
    let mut r: Vec<String> = Vec::new();
    while r.len() < n
        invariant
            r@.len() <= n,
            forall|i: int| 0 <= i < r@.len() ==> ids::is_uuid((#[trigger] r@[i])@),
        decreases n - r@.len(),
    {
        r.push(new_uuid());
    }
    assert(made_up(text::views(r@))) by {
        assert forall|i: int| 0 <= i < text::views(r@).len() implies ids::is_uuid(
            #[trigger] text::views(r@)[i],
        ) by {
            assert(text::views(r@)[i] == r@[i]@);
        }
    }
    r
}

fn write_junctions(n: Nodes, v: &Vec<Pt>, ids: &Vec<String>) -> (r: Nodes)
    requires
        sexp::all_ok(n@),
        ids@.len() == v@.len(),
        forall|i: int|
            0 <= i < v@.len() ==> place_text::roomy((#[trigger] v@[i]).x as int) && place_text::roomy(
                v@[i].y as int,
            ),
    ensures
        r@ == n@ + Seq::new(v@.len(), |i: int| junction_node(v@[i], text::views(ids@)[i])),
        sexp::all_ok(r@),
{
    let ghost base = n@;
    let ghost want = Seq::new(v@.len(), |i: int| junction_node(v@[i], text::views(ids@)[i]));
    let mut n = n;
    let mut i: usize = 0;
    assert(n@ =~= base + want.take(0));
    while i < v.len()
        invariant
            i <= v@.len(),
            ids@.len() == v@.len(),
            forall|i: int|
                0 <= i < v@.len() ==> place_text::roomy((#[trigger] v@[i]).x as int)
                    && place_text::roomy(v@[i].y as int),
            want == Seq::new(v@.len(), |i: int| junction_node(v@[i], text::views(ids@)[i])),
            sexp::all_ok(n@),
            n@ == base + want.take(i as int),
        decreases v@.len() - i,
    {
        assert(place_text::roomy(v@[i as int].x as int));
        let at = point_node("at", v[i]);
        let col = Nodes::tag("color").add(Sexp::Int(0)).add(Sexp::Int(0)).add(Sexp::Int(0)).add(
            Sexp::Int(0),
        ).done();
        assert(col@->List_0 =~= tagged(
            "color"@,
            seq![SexpV::Int(0), SexpV::Int(0), SexpV::Int(0), SexpV::Int(0)],
        )->List_0);
        let e = Nodes::tag("junction").add(at).add(int_node("diameter", 0)).add(col).add(
            uuid_node(ids[i].as_str()),
        ).done();
        assert(e@->List_0 =~= want[i as int]->List_0);
        n = n.add(e);
        assert(want.take(i + 1) =~= want.take(i as int).push(want[i as int]));
        assert(n@ =~= base + want.take(i + 1));
        i += 1;
    }
    assert(want.take(want.len() as int) =~= want);
    n
}

fn write_ncs(n: Nodes, v: &Vec<Pt>, ids: &Vec<String>) -> (r: Nodes)
    requires
        sexp::all_ok(n@),
        ids@.len() == v@.len(),
        model::path_ok(v@),
    ensures
        r@ == n@ + Seq::new(v@.len(), |i: int| nc_node(v@[i], text::views(ids@)[i])),
        sexp::all_ok(r@),
{
    let ghost base = n@;
    let ghost want = Seq::new(v@.len(), |i: int| nc_node(v@[i], text::views(ids@)[i]));
    let mut n = n;
    let mut i: usize = 0;
    assert(n@ =~= base + want.take(0));
    while i < v.len()
        invariant
            i <= v@.len(),
            ids@.len() == v@.len(),
            model::path_ok(v@),
            want == Seq::new(v@.len(), |i: int| nc_node(v@[i], text::views(ids@)[i])),
            sexp::all_ok(n@),
            n@ == base + want.take(i as int),
        decreases v@.len() - i,
    {
        assert(model::on_sheet(v@[i as int]));
        let e = Nodes::tag("no_connect").add(point_node("at", v[i])).add(
            uuid_node(ids[i].as_str()),
        ).done();
        assert(e@->List_0 =~= want[i as int]->List_0);
        n = n.add(e);
        assert(want.take(i + 1) =~= want.take(i as int).push(want[i as int]));
        assert(n@ =~= base + want.take(i + 1));
        i += 1;
    }
    assert(want.take(want.len() as int) =~= want);
    n
}

fn write_wires(n: Nodes, v: &Vec<(Pt, Pt)>, ids: &Vec<String>) -> (r: Nodes)
    requires
        sexp::all_ok(n@),
        ids@.len() == v@.len(),
        forall|i: int|
            0 <= i < v@.len() ==> model::on_sheet((#[trigger] v@[i]).0) && model::on_sheet(v@[i].1),
    ensures
        r@ == n@ + Seq::new(v@.len(), |i: int| wire_node(v@[i], text::views(ids@)[i])),
        sexp::all_ok(r@),
{
    let ghost base = n@;
    let ghost want = Seq::new(v@.len(), |i: int| wire_node(v@[i], text::views(ids@)[i]));
    let mut n = n;
    let mut i: usize = 0;
    assert(n@ =~= base + want.take(0));
    while i < v.len()
        invariant
            i <= v@.len(),
            ids@.len() == v@.len(),
            forall|i: int|
                0 <= i < v@.len() ==> model::on_sheet((#[trigger] v@[i]).0) && model::on_sheet(
                    v@[i].1,
                ),
            want == Seq::new(v@.len(), |i: int| wire_node(v@[i], text::views(ids@)[i])),
            sexp::all_ok(n@),
            n@ == base + want.take(i as int),
        decreases v@.len() - i,
    {
        let s = v[i];
        assert(model::on_sheet(v@[i as int].0) && model::on_sheet(v@[i as int].1));
        let pts = Nodes::tag("pts").add(point_node("xy", s.0)).add(point_node("xy", s.1)).done();
        assert(pts@->List_0 =~= tagged(
            "pts"@,
            seq![point_spec("xy"@, s.0), point_spec("xy"@, s.1)],
        )->List_0);
        let e = Nodes::tag("wire").add(pts).add(stroke()).add(uuid_node(ids[i].as_str())).done();
        assert(e@->List_0 =~= want[i as int]->List_0);
        n = n.add(e);
        assert(want.take(i + 1) =~= want.take(i as int).push(want[i as int]));
        assert(n@ =~= base + want.take(i + 1));
        i += 1;
    }
    assert(want.take(want.len() as int) =~= want);
    n
}

fn write_rects(n: Nodes, des: &Design, ids: &Vec<String>) -> (r: Nodes)
    requires
        sexp::all_ok(n@),
        des@.ok(),
        ids@.len() == des.rects@.len(),
    ensures
        r@ == n@ + Seq::new(
            des@.rects.len(),
            |i: int| rect_node(des@.rects[i], text::views(ids@)[i]),
        ),
        sexp::all_ok(r@),
{
    let ghost base = n@;
    let ghost want = Seq::new(
        des@.rects.len(),
        |i: int| rect_node(des@.rects[i], text::views(ids@)[i]),
    );
    let mut n = n;
    let mut i: usize = 0;
    assert(n@ =~= base + want.take(0));
    while i < des.rects.len()
        invariant
            i <= des.rects@.len(),
            ids@.len() == des.rects@.len(),
            des@.ok(),
            want == Seq::new(
                des@.rects.len(),
                |i: int| rect_node(des@.rects[i], text::views(ids@)[i]),
            ),
            sexp::all_ok(n@),
            n@ == base + want.take(i as int),
        decreases des.rects@.len() - i,
    {
        let q = &des.rects[i];
        assert(des@.rects[i as int] == q@);
        assert(model::on_sheet(des@.rects[i as int].start));
        let fill = Nodes::tag("fill").add(flag_node("type", "none")).done();
        assert(fill@->List_0 =~= tagged(
            "fill"@,
            seq![tagged("type"@, seq![SexpV::Sym("none"@)])],
        )->List_0);
        let id = nonempty_or(q.uuid.as_str(), ids[i].as_str());
        let e = Nodes::tag("rectangle").add(point_node("start", q.start)).add(
            point_node("end", q.end),
        ).add(stroke()).add(fill).add(uuid_node(id.as_str())).done();
        assert(e@->List_0 =~= want[i as int]->List_0);
        n = n.add(e);
        assert(want.take(i + 1) =~= want.take(i as int).push(want[i as int]));
        assert(n@ =~= base + want.take(i + 1));
        i += 1;
    }
    assert(want.take(want.len() as int) =~= want);
    n
}

fn write_texts(n: Nodes, des: &Design, ids: &Vec<String>) -> (r: Nodes)
    requires
        sexp::all_ok(n@),
        des@.ok(),
        ids@.len() == des.texts@.len(),
    ensures
        r@ == n@ + Seq::new(
            des@.texts.len(),
            |i: int| text_node_spec(des@.texts[i], text::views(ids@)[i]),
        ),
        sexp::all_ok(r@),
{
    let ghost base = n@;
    let ghost want = Seq::new(
        des@.texts.len(),
        |i: int| text_node_spec(des@.texts[i], text::views(ids@)[i]),
    );
    let mut n = n;
    let mut i: usize = 0;
    assert(n@ =~= base + want.take(0));
    while i < des.texts.len()
        invariant
            i <= des.texts@.len(),
            ids@.len() == des.texts@.len(),
            des@.ok(),
            want == Seq::new(
                des@.texts.len(),
                |i: int| text_node_spec(des@.texts[i], text::views(ids@)[i]),
            ),
            sexp::all_ok(n@),
            n@ == base + want.take(i as int),
        decreases des.texts@.len() - i,
    {
        let t = &des.texts[i];
        assert(des@.texts[i as int] == t@);
        assert(model::on_sheet(des@.texts[i as int].at));
        let id = nonempty_or(t.uuid.as_str(), ids[i].as_str());
        let e = Nodes::tag("text").text(t.text.as_str()).add(flag_node("exclude_from_sim", "no")).add(
            place_node(t.at, t.rot),
        ).add(font(t.size, t.bold, false, t.justify.as_str())).add(uuid_node(id.as_str())).done();
        assert(e@->List_0 =~= want[i as int]->List_0);
        n = n.add(e);
        assert(want.take(i + 1) =~= want.take(i as int).push(want[i as int]));
        assert(n@ =~= base + want.take(i + 1));
        i += 1;
    }
    assert(want.take(want.len() as int) =~= want);
    n
}

fn write_label(l: &Label, fresh: &str) -> (r: Sexp)
    requires
        model::on_sheet(l.at),
    ensures
        r@ == label_node(l@, fresh@),
        sexp::ok(r@),
{
    let kind = l.kind.as_str();
    let tag = if same(kind, "global") {
        "global_label"
    } else if same(kind, "hier") {
        "hierarchical_label"
    } else {
        "label"
    };
    let mut n = Nodes::tag(tag).text(l.text.as_str());
    if !same(kind, "local") {
        n = n.add(flag_node("shape", l.shape.as_str()));
    }
    let auto = label_justify(l);
    let just = nonempty_or(l.justify.as_str(), auto.as_str());
    let id = nonempty_or(l.uuid.as_str(), fresh);
    let r = n.add(place_node(l.at, l.rot)).add(font(127_000, false, false, just.as_str())).add(
        uuid_node(id.as_str()),
    ).done();
    assert(r@->List_0 =~= label_node(l@, fresh@)->List_0);
    r
}

fn write_labels(n: Nodes, des: &Design, ids: &Vec<String>) -> (r: Nodes)
    requires
        sexp::all_ok(n@),
        des@.ok(),
        ids@.len() == des.labels@.len(),
    ensures
        r@ == n@ + Seq::new(
            des@.labels.len(),
            |i: int| label_node(des@.labels[i], text::views(ids@)[i]),
        ),
        sexp::all_ok(r@),
{
    let ghost base = n@;
    let ghost want = Seq::new(
        des@.labels.len(),
        |i: int| label_node(des@.labels[i], text::views(ids@)[i]),
    );
    let mut n = n;
    let mut i: usize = 0;
    assert(n@ =~= base + want.take(0));
    while i < des.labels.len()
        invariant
            i <= des.labels@.len(),
            ids@.len() == des.labels@.len(),
            des@.ok(),
            want == Seq::new(
                des@.labels.len(),
                |i: int| label_node(des@.labels[i], text::views(ids@)[i]),
            ),
            sexp::all_ok(n@),
            n@ == base + want.take(i as int),
        decreases des.labels@.len() - i,
    {
        assert(des@.labels[i as int] == des.labels@[i as int]@);
        assert(model::on_sheet(des@.labels[i as int].at));
        n = n.add(write_label(&des.labels[i], ids[i].as_str()));
        assert(want.take(i + 1) =~= want.take(i as int).push(want[i as int]));
        assert(n@ =~= base + want.take(i + 1));
        i += 1;
    }
    assert(want.take(want.len() as int) =~= want);
    n
}

fn add_all(n: Nodes, v: &Vec<Sexp>) -> (r: Nodes)
    requires
        sexp::all_ok(n@),
        sexp::all_ok(sexp::nodes_v(v@)),
    ensures
        r@ == n@ + sexp::nodes_v(v@),
        sexp::all_ok(r@),
{
    let ghost base = n@;
    let ghost want = sexp::nodes_v(v@);
    let mut n = n;
    let mut i: usize = 0;
    assert(n@ =~= base + want.take(0));
    while i < v.len()
        invariant
            i <= v@.len(),
            want == sexp::nodes_v(v@),
            sexp::all_ok(want),
            sexp::all_ok(n@),
            n@ == base + want.take(i as int),
        decreases v@.len() - i,
    {
        assert(sexp::ok(want[i as int]));
        n = n.add(v[i].dup());
        assert(want.take(i + 1) =~= want.take(i as int).push(want[i as int]));
        assert(n@ =~= base + want.take(i + 1));
        i += 1;
    }
    assert(want.take(want.len() as int) =~= want);
    n
}

/// The segments of all wires.
fn wire_segments(des: &Design) -> (r: Vec<(Pt, Pt)>)
    requires
        des@.ok(),
    ensures
        r@ == group::all_segs(des@.wires, des@.wires.len() as int),
        forall|i: int|
            0 <= i < r@.len() ==> model::on_sheet((#[trigger] r@[i]).0) && model::on_sheet(r@[i].1),
{
    let mut r: Vec<(Pt, Pt)> = Vec::new();
    let ghost ws = des@.wires;
    let mut i: usize = 0;
    while i < des.wires.len()
        invariant
            i <= des.wires@.len(),
            ws == des@.wires,
            ws.len() == des.wires@.len(),
            des@.ok(),
            r@ == group::all_segs(ws, i as int),
            forall|i: int|
                0 <= i < r@.len() ==> model::on_sheet((#[trigger] r@[i]).0) && model::on_sheet(
                    r@[i].1,
                ),
        decreases des.wires@.len() - i,
    {
        let w = &des.wires[i];
        assert(ws[i as int] == w@);
        assert(model::path_ok(ws[i as int]));
        let ghost base = r@;
        let mut k: usize = 1;
        assert(r@ =~= base + group::segs_of(w@, 0));
        while k < w.len()
            invariant
                k <= w@.len() || k == 1,
                k >= 1,
                model::path_ok(w@),
                r@ == base + group::segs_of(w@, k - 1),
                forall|i: int|
                    0 <= i < r@.len() ==> model::on_sheet((#[trigger] r@[i]).0) && model::on_sheet(
                        r@[i].1,
                    ),
            decreases w@.len() - k,
        {
            assert(model::on_sheet(w@[k - 1]) && model::on_sheet(w@[k as int]));
            r.push((w[k - 1], w[k]));
            assert(r@ =~= base + group::segs_of(w@, k as int));
            k += 1;
        }
        assert(r@ =~= group::all_segs(ws, i + 1)) by {
            if w@.len() == 0 {
                assert(group::segs_of(w@, 0) =~= group::segs_of(w@, -1));
            }
        }
        i += 1;
    }
    r
}

/// The identifiers of the segments of all wires.
fn wire_names(des: &Design, fresh: &Vec<String>) -> (r: Vec<String>)
    requires
        fresh@.len() == group::all_segs(des@.wires, des@.wires.len() as int).len(),
    ensures
        r@.len() == fresh@.len(),
        forall|i: int|
            0 <= i < r@.len() ==> #[trigger] text::views(r@)[i] == if_empty(
                kept_ids(des@.wires, des@.wire_uuids, des@.wires.len() as int)[i],
                text::views(fresh@)[i],
            ),
{
    let ghost ws = des@.wires;
    let ghost us = des@.wire_uuids;
    let ghost fv = text::views(fresh@);
    let mut r: Vec<String> = Vec::new();
    let mut i: usize = 0;
    while i < des.wires.len()
        invariant
            i <= des.wires@.len(),
            ws == des@.wires,
            us == des@.wire_uuids,
            fv == text::views(fresh@),
            ws.len() == des.wires@.len(),
            us.len() == des.wire_uuids@.len(),
            fresh@.len() == group::all_segs(ws, ws.len() as int).len(),
            r@.len() == group::all_segs(ws, i as int).len(),
            r@.len() == kept_ids(ws, us, i as int).len(),
            forall|k: int|
                0 <= k < r@.len() ==> (#[trigger] r@[k])@ == if_empty(
                    kept_ids(ws, us, i as int)[k],
                    fv[k],
                ),
        decreases des.wires@.len() - i,
    {
        let w = &des.wires[i];
        assert(ws[i as int] == w@);
        let ghost base = r@;
        let ghost want = kept_ids(ws, us, i + 1);
        let ghost c = group::segs_of(w@, w@.len() - 1).len();
        proof {
            lemma_segs_len(w@, w@.len() - 1);
            lemma_all_segs_grow(ws, i + 1, ws.len() as int);
            assert(group::all_segs(ws, i + 1).len() == base.len() + c);
            assert(want.len() == base.len() + c);
        }
        let mut k: usize = 1;
        while k < w.len()
            invariant
                k >= 1,
                k <= w@.len() || k == 1,
                c == (if w@.len() > 0 {
                    w@.len() - 1
                } else {
                    0
                }),
                i < des.wires@.len(),
                us == des@.wire_uuids,
                us.len() == des.wire_uuids@.len(),
                fv == text::views(fresh@),
                base.len() + c <= fresh@.len(),
                r@.len() == base.len() + k - 1,
                want.len() == base.len() + c,
                forall|j: int| 0 <= j < base.len() ==> r@[j] == base[j],
                forall|j: int|
                    base.len() <= j < want.len() ==> #[trigger] want[j] == (if j == base.len() && i
                        < us.len() {
                        us[i as int]
                    } else {
                        Seq::empty()
                    }),
                forall|j: int|
                    base.len() <= j < r@.len() ==> (#[trigger] r@[j])@ == if_empty(want[j], fv[j]),
            decreases w@.len() - k,
        {
            let at = r.len();
            assert(fv[at as int] == fresh@[at as int]@);
            if k == 1 && i < des.wire_uuids.len() {
                assert(us[i as int] == des.wire_uuids@[i as int]@);
                r.push(nonempty_or(des.wire_uuids[i].as_str(), fresh[at].as_str()));
            } else {
                r.push(fresh[at].clone());
            }
            k += 1;
        }
        assert forall|k: int| 0 <= k < r@.len() implies (#[trigger] r@[k])@ == if_empty(
            want[k],
            fv[k],
        ) by {
            if k < base.len() {
                assert(base[k]@ == if_empty(kept_ids(ws, us, i as int)[k], fv[k]));
                assert(want[k] == kept_ids(ws, us, i as int)[k]);
            }
        }
        i += 1;
    }
    assert forall|i: int| 0 <= i < r@.len() implies #[trigger] text::views(r@)[i] == if_empty(
        kept_ids(ws, us, ws.len() as int)[i],
        fv[i],
    ) by {
        assert(text::views(r@)[i] == r@[i]@);
    }
    r
}

proof fn lemma_segs_len(w: Seq<Pt>, n: int)
    ensures
        group::segs_of(w, n).len() == (if n > 0 {
            n
        } else {
            0
        }),
    decreases n,
{
    if n > 0 {
        lemma_segs_len(w, n - 1);
    }
}

proof fn lemma_all_segs_grow(ws: Seq<Seq<Pt>>, n: int, m: int)
    requires
        0 <= n <= m,
    ensures
        group::all_segs(ws, n).len() <= group::all_segs(ws, m).len(),
    decreases m - n,
{
    if n < m {
        lemma_all_segs_grow(ws, n, m - 1);
    }
}

fn write_libs(libs: &Vec<(String, Sexp)>) -> (r: Sexp)
    requires
        nodes_ok(sexp::named_v(libs@)),
    ensures
        r@ == tagged("lib_symbols"@, sorted_libs(sexp::named_v(libs@))),
        sexp::ok(r@),
{
    let ghost lv = sexp::named_v(libs@);
    let mut names: Vec<String> = Vec::new();
    let mut zeros: Vec<i64> = Vec::new();
    let mut i: usize = 0;
    while i < libs.len()
        invariant
            i <= libs@.len(),
            lv == sexp::named_v(libs@),
            names@.len() == i,
            zeros@.len() == i,
            forall|j: int| 0 <= j < i ==> (#[trigger] names@[j])@ == lv[j].0,
            forall|j: int| 0 <= j < i ==> #[trigger] zeros@[j] == 0,
        decreases libs@.len() - i,
    {
        names.push(libs[i].0.clone());
        zeros.push(0);
        i += 1;
    }
    assert(text::views(names@) =~= Seq::new(lv.len(), |i: int| lv[i].0));
    assert(zeros@ =~= Seq::new(lv.len(), |i: int| 0i64));
    let o = order_by_name(&zeros, &names);
    let ghost want = sorted_libs(lv);
    let mut n = Nodes::tag("lib_symbols");
    let ghost base = n@;
    i = 0;
    assert(n@ =~= base + want.take(0));
    while i < o.len()
        invariant
            i <= o@.len(),
            o@.len() == libs@.len(),
            lv == sexp::named_v(libs@),
            nodes_ok(lv),
            forall|i: int| 0 <= i < o@.len() ==> #[trigger] o@[i] < libs@.len(),
            want.len() == o@.len(),
            forall|i: int| 0 <= i < o@.len() ==> #[trigger] want[i] == lv[o@[i] as int].1,
            sexp::all_ok(n@),
            n@ == base + want.take(i as int),
        decreases o@.len() - i,
    {
        let k: usize = o[i];
        assert(sexp::ok(lv[k as int].1));
        assert(want[i as int] == libs@[k as int].1@);
        n = n.add(libs[k].1.dup());
        assert(want.take(i + 1) =~= want.take(i as int).push(want[i as int]));
        assert(n@ =~= base + want.take(i + 1));
        i += 1;
    }
    assert(want.take(want.len() as int) =~= want);
    n.done()
}

fn write_tail(n: Nodes) -> (r: Nodes)
    requires
        sexp::all_ok(n@),
    ensures
        r@ == n@ + tail_nodes(),
        sexp::all_ok(r@),
{
    let ghost n0 = n@;
    let page = text_node("page", "1");
    let path = Nodes::tag("path").text("/").add(page).done();
    assert(path@->List_0 =~= tagged(
        "path"@,
        seq![SexpV::Str("/"@), tagged("page"@, seq![SexpV::Str("1"@)])],
    )->List_0);
    let inst = Nodes::tag("sheet_instances").add(path).done();
    assert(inst@->List_0 =~= tail_nodes()[0]->List_0);
    let r = n.add(inst).add(flag_node("embedded_fonts", "no"));
    assert(r@ =~= n0 + tail_nodes());
    r
}

/// Identifiers for everything on a sheet that has none of its own.
pub struct SheetIds {
    pub junctions: Vec<String>,
    pub nc: Vec<String>,
    pub wires: Vec<String>,
    pub rects: Vec<String>,
    pub texts: Vec<String>,
    pub labels: Vec<String>,
}

impl View for SheetIds {
    type V = IdsV;

    open spec fn view(&self) -> IdsV {
        IdsV {
            junctions: text::views(self.junctions@),
            nc: text::views(self.nc@),
            wires: text::views(self.wires@),
            rects: text::views(self.rects@),
            texts: text::views(self.texts@),
            labels: text::views(self.labels@),
        }
    }
}

/// Identifiers that were made up, none of them empty.
pub open spec fn made_up(v: Seq<Seq<char>>) -> bool {
    forall|i: int| 0 <= i < v.len() ==> ids::is_uuid(#[trigger] v[i])
}

pub open spec fn all_made_up(ids: IdsV) -> bool {
    &&& made_up(ids.junctions)
    &&& made_up(ids.nc)
    &&& made_up(ids.wires)
    &&& made_up(ids.rects)
    &&& made_up(ids.texts)
    &&& made_up(ids.labels)
}

/// One identifier for each item.
pub open spec fn ids_fit(ids: IdsV, des: DesignV, junctions: int) -> bool {
    &&& ids.junctions.len() == junctions
    &&& ids.nc.len() == des.nc.len()
    &&& ids.wires.len() == group::all_segs(des.wires, des.wires.len() as int).len()
    &&& ids.rects.len() == des.rects.len()
    &&& ids.texts.len() == des.texts.len()
    &&& ids.labels.len() == des.labels.len()
}

/// Writes the node of a sheet around the nodes of its symbols.
pub fn write_sheet(
    des: &Design,
    libs: &Vec<(String, Sexp)>,
    junctions: &Vec<Pt>,
    symbols: &Vec<Sexp>,
    ids: &SheetIds,
) -> (r: Sexp)
    requires
        des@.ok(),
        nodes_ok(sexp::named_v(libs@)),
        sexp::all_ok(sexp::nodes_v(symbols@)),
        ids_fit(ids@, des@, junctions@.len() as int),
        forall|i: int|
            0 <= i < junctions@.len() ==> place_text::roomy((#[trigger] junctions@[i]).x as int)
                && place_text::roomy(junctions@[i].y as int),
    ensures
        r@ == sheet_spec(
            des@,
            sexp::named_v(libs@),
            junctions@,
            sexp::nodes_v(symbols@),
            ids@,
        ),
        sexp::ok(r@),
{
    let segs = wire_segments(des);
    let n = write_sheet_head(des);
    let n = n.add(write_libs(libs));
    let ghost head = n@;
    let n = write_junctions(n, junctions, &ids.junctions);
    let n = write_ncs(n, &des.nc, &ids.nc);
    let names = wire_names(des, &ids.wires);
    let n = write_wires(n, &segs, &names);
    assert(Seq::new(segs@.len(), |i: int| wire_node(segs@[i], text::views(names@)[i])) =~= Seq::new(
        segs@.len(),
        |i: int| segment_node(des@, ids@, i),
    ));
    let n = write_rects(n, des, &ids.rects);
    let n = write_texts(n, des, &ids.texts);
    let n = write_labels(n, des, &ids.labels);
    assert(n@ =~= head + drawn_nodes(des@, junctions@, ids@));
    let n = add_all(n, symbols);
    let n = add_all(n, &des.extra_nodes);
    let n = write_tail(n);
    assert(n@ =~= sheet_head(des@) + seq![
        tagged("lib_symbols"@, sorted_libs(sexp::named_v(libs@))),
    ] + drawn_nodes(des@, junctions@, ids@) + sexp::nodes_v(symbols@) + des@.extra_nodes
        + tail_nodes());
    n.done()
}

// ---------------------------------------------------------------- numbering and compilation

pub open spec fn given_refs(power: Seq<PowerV>, n: int) -> Seq<Seq<char>>
    decreases n,
{
    if n <= 0 {
        Seq::empty()
    } else if power[n - 1].reference.len() > 0 {
        given_refs(power, n - 1).push(power[n - 1].reference)
    } else {
        given_refs(power, n - 1)
    }
}

/// The first number from `n` whose reference is not taken, looking at most `fuel` numbers ahead.
pub open spec fn next_free(used: Seq<Seq<char>>, n: nat, fuel: nat) -> nat
    decreases fuel,
{
    if fuel == 0 || !used.contains(power_ref(n)) {
        n
    } else {
        next_free(used, n + 1, (fuel - 1) as nat)
    }
}

pub struct CountV {
    pub n: nat,
    pub used: Seq<Seq<char>>,
}

/// The running number of power references after the first `k` symbols: it starts at one, and stays
/// until a symbol without a reference takes the next free one.
pub open spec fn numbering(power: Seq<PowerV>, k: int) -> CountV
    decreases k,
{
    if k <= 0 {
        CountV { n: 1, used: given_refs(power, power.len() as int) }
    } else {
        let c = numbering(power, k - 1);
        if power[k - 1].reference.len() > 0 {
            c
        } else {
            let n = next_free(c.used, c.n, c.used.len());
            CountV { n, used: c.used.push(power_ref(n)) }
        }
    }
}

/// Nodes that were written, in order.
pub open spec fn present(v: Seq<Option<SexpV>>) -> Seq<SexpV>
    decreases v.len(),
{
    if v.len() == 0 {
        Seq::empty()
    } else if v.last() is Some {
        present(v.drop_last()).push(v.last()->0)
    } else {
        present(v.drop_last())
    }
}

/// What was made up and gathered on the way to a sheet's text.
pub struct TrailV {
    pub uuid: Seq<char>,
    /// The state before each part, and after the last.
    pub states: Seq<StateV>,
    /// The same for power symbols, and the list of them at that moment.
    pub power_states: Seq<StateV>,
    pub power: Seq<Seq<PowerV>>,
    /// What each part and then each power symbol gave.
    pub nodes: Seq<Option<SexpV>>,
    pub ids: IdsV,
}

/// The design with its identifiers filled in.
pub open spec fn identified(des: DesignV, uuid: Seq<char>) -> DesignV {
    DesignV {
        uuid,
        sheet_path_uuid: if_empty(des.sheet_path_uuid, "/"@ + uuid),
        ..des
    }
}

pub open spec fn parts_done(
    st: StateV,
    des: DesignV,
    shelf: Shelf,
    states: Seq<StateV>,
    nodes: Seq<Option<SexpV>>,
    n: int,
) -> bool {
    &&& states.len() == n + 1
    &&& nodes.len() == n
    &&& states[0] == st
    &&& forall|i: int|
        0 <= i < n ==> emitted(states[i], des, shelf, des.parts[i], states[i + 1], #[trigger] nodes[i])
}

pub open spec fn power_done(
    st: StateV,
    des: DesignV,
    shelf: Shelf,
    states: Seq<StateV>,
    power: Seq<Seq<PowerV>>,
    nodes: Seq<Option<SexpV>>,
    n: int,
) -> bool {
    &&& states.len() == n + 1
    &&& power.len() == n + 1
    &&& nodes.len() == n
    &&& states[0] == st
    &&& power[0] == des.power
    &&& forall|k: int|
        0 <= k < n ==> power_emitted(
            states[k],
            DesignV { power: power[k], ..des },
            shelf,
            k,
            numbering(des.power, k + 1).n,
            states[k + 1],
            power[k + 1],
            #[trigger] nodes[k],
        )
}

/// What compiling a design means: identifiers are filled in, all parts and then all power symbols
/// are written, and the sheet's text is the node around them.
pub open spec fn compiled(
    des0: DesignV,
    shelf: Shelf,
    st0: StateV,
    t: TrailV,
    des: DesignV,
    st: StateV,
    out: Seq<char>,
) -> bool {
    let d1 = identified(des0, t.uuid);
    let n = des0.parts.len() as int;
    let m = des0.power.len() as int;
    &&& if des0.uuid.len() > 0 {
        t.uuid == des0.uuid
    } else {
        ids::is_uuid(t.uuid)
    }
    &&& t.nodes.len() == n + m
    &&& parts_done(st0, d1, shelf, t.states, t.nodes.take(n), n)
    &&& power_done(t.states[n], d1, shelf, t.power_states, t.power, t.nodes.skip(n), m)
    &&& des == (DesignV { power: t.power[m], ..d1 })
    &&& st == pin_positions(t.power_states[m], des, shelf).0
    &&& {
        let pins = pin_positions(t.power_states[m], des, shelf).1;
        let js = junctions_spec(des, pins);
        &&& ids_fit(t.ids, des, js.len() as int)
        &&& all_made_up(t.ids)
        &&& out == sexp::dumped(
            sheet_spec(des, t.power_states[m].libs, js, present(t.nodes), t.ids),
            sexp::tabs(0),
        ) + "\n"@
    }
}

fn is_used(used: &Vec<String>, r: &str) -> (b: bool)
    ensures
        b == text::views(used@).contains(r@),
{
    let ghost uv = text::views(used@);
    let mut i: usize = 0;
    while i < used.len()
        invariant
            i <= used@.len(),
            uv == text::views(used@),
            forall|j: int| 0 <= j < i ==> #[trigger] uv[j] != r@,
        decreases used@.len() - i,
    {
        if same(used[i].as_str(), r) {
            assert(uv[i as int] == r@);
            return true;
        }
        i += 1;
    }
    false
}

fn free_number(used: &Vec<String>, n: u64) -> (r: u64)
    requires
        n + used@.len() <= u64::MAX,
    ensures
        r == next_free(text::views(used@), n as nat, used@.len()),
        n <= r <= n + used@.len(),
{
    let mut r: u64 = n;
    let mut fuel: usize = used.len();
    let ghost goal = next_free(text::views(used@), n as nat, used@.len());
    let mut going = true;
    while going && fuel > 0
        invariant
            r + fuel == n + used@.len(),
            n <= r,
            n + used@.len() <= u64::MAX,
            fuel <= used@.len(),
            going ==> goal == next_free(text::views(used@), r as nat, fuel as nat),
            !going ==> goal == r,
        decreases fuel, (if going { 1int } else { 0 }),
    {
        if is_used(used, make_ref(r).as_str()) {
            r += 1;
            fuel -= 1;
        } else {
            going = false;
        }
    }
    r
}

impl Compiler {
    fn name_sheet(&mut self)
        requires
            old(self).wf(),
        ensures
            final(self).wf(),
            final(self).shelf == old(self).shelf,
            final(self).state() == old(self).state(),
            final(self).des@ == identified(old(self).des@, final(self).des@.uuid),
            old(self).des@.uuid.len() > 0 ==> final(self).des@.uuid == old(self).des@.uuid,
            old(self).des@.uuid.len() == 0 ==> ids::is_uuid(final(self).des@.uuid),
    {
        let ghost d0 = self.des@;
        if self.des.uuid.as_str().unicode_len() == 0 {
            self.des.uuid = new_uuid();
        }
        let path = concat3("/", self.des.uuid.as_str(), "");
        proof {
            reveal_strlit("");
            assert("/"@ + self.des.uuid@ + ""@ =~= "/"@ + self.des.uuid@);
        }
        self.des.sheet_path_uuid = nonempty_or(
            self.des.sheet_path_uuid.as_str(),
            path.as_str(),
        );
        assert(self.des@ =~= identified(d0, self.des@.uuid));
        assert(self.des@.ok());
    }

    fn emit_parts(&mut self, out: &mut Vec<Sexp>) -> (r: Ghost<(Seq<StateV>, Seq<Option<SexpV>>)>)
        requires
            old(self).wf(),
            old(out)@.len() == 0,
            forall|i: int|
                0 <= i < old(self).des@.parts.len() ==> part_texts_ok(
                    #[trigger] old(self).des@.parts[i],
                ),
        ensures
            final(self).wf(),
            final(self).des == old(self).des,
            final(self).shelf == old(self).shelf,
            parts_done(
                old(self).state(),
                old(self).des@,
                old(self).shelf,
                r@.0,
                r@.1,
                old(self).des@.parts.len() as int,
            ),
            final(self).state() == r@.0.last(),
            sexp::nodes_v(final(out)@) == present(r@.1),
            sexp::all_ok(sexp::nodes_v(final(out)@)),
    {
        let ghost st0 = self.state();
        let ghost des = self.des@;
        let ghost mut states: Seq<StateV> = seq![st0];
        let ghost mut nodes: Seq<Option<SexpV>> = Seq::empty();
        let n: usize = self.des.parts.len();
        let mut i: usize = 0;
        assert(sexp::nodes_v(out@) =~= present(nodes));
        while i < n
            invariant
                i <= n,
                n == self.des.parts@.len(),
                self.wf(),
                self.des == old(self).des,
                self.shelf == old(self).shelf,
                des == self.des@,
                des.parts.len() == n,
                forall|i: int| 0 <= i < des.parts.len() ==> part_texts_ok(#[trigger] des.parts[i]),
                parts_done(st0, des, self.shelf, states, nodes, i as int),
                self.state() == states.last(),
                sexp::nodes_v(out@) == present(nodes),
                sexp::all_ok(sexp::nodes_v(out@)),
            decreases n - i,
        {
            let ghost s1 = states;
            let ghost n1 = nodes;
            assert(part_texts_ok(des.parts[i as int]));
            let e = self.emit_part(i);
            let ghost ev = sexp_v(e);
            proof {
                states = s1.push(self.state());
                nodes = n1.push(ev);
                assert(nodes.drop_last() =~= n1);
                assert forall|k: int| 0 <= k < i + 1 implies emitted(
                    states[k],
                    des,
                    self.shelf,
                    des.parts[k],
                    states[k + 1],
                    #[trigger] nodes[k],
                ) by {
                    if k < i {
                        assert(nodes[k] == n1[k]);
                        assert(states[k] == s1[k] && states[k + 1] == s1[k + 1]);
                    } else {
                        assert(states[k] == s1.last());
                    }
                }
            }
            let ghost o1 = sexp::nodes_v(out@);
            match e {
                Some(x) => {
                    out.push(x);
                    assert(sexp::nodes_v(out@) =~= o1.push(x@));
                },
                None => {},
            }
            i += 1;
        }
        Ghost((states, nodes))
    }

    fn taken_refs(&self) -> (r: Vec<String>)
        ensures
            text::views(r@) == given_refs(self.des@.power, self.des@.power.len() as int),
            r@.len() <= self.des.power@.len(),
    {
        let ghost pv = self.des@.power;
        let mut r: Vec<String> = Vec::new();
        let mut i: usize = 0;
        assert(text::views(r@) =~= given_refs(pv, 0));
        while i < self.des.power.len()
            invariant
                i <= self.des.power@.len(),
                pv == self.des@.power,
                pv.len() == self.des.power@.len(),
                r@.len() <= i,
                text::views(r@) == given_refs(pv, i as int),
            decreases self.des.power@.len() - i,
        {
            assert(pv[i as int] == self.des.power@[i as int]@);
            let ghost r0 = r@;
            if self.des.power[i].reference.as_str().unicode_len() > 0 {
                r.push(self.des.power[i].reference.clone());
                assert(text::views(r@) =~= text::views(r0).push(pv[i as int].reference));
            }
            i += 1;
        }
        r
    }

    #[verifier::spinoff_prover]
    fn emit_powers(&mut self, out: &mut Vec<Sexp>) -> (r: Ghost<
        (Seq<StateV>, Seq<Seq<PowerV>>, Seq<Option<SexpV>>),
    >)
        requires
            old(self).wf(),
            old(self).des@.power.len() <= 0x10_0000,
            sexp::all_ok(sexp::nodes_v(old(out)@)),
        ensures
            final(self).wf(),
            final(self).shelf == old(self).shelf,
            final(self).des@ == (DesignV { power: r@.1.last(), ..old(self).des@ }),
            power_done(
                old(self).state(),
                old(self).des@,
                old(self).shelf,
                r@.0,
                r@.1,
                r@.2,
                old(self).des@.power.len() as int,
            ),
            final(self).state() == r@.0.last(),
            sexp::nodes_v(final(out)@) == sexp::nodes_v(old(out)@) + present(r@.2),
            sexp::all_ok(sexp::nodes_v(final(out)@)),
    {
        let ghost st0 = self.state();
        let ghost des = self.des@;
        let ghost base = sexp::nodes_v(out@);
        let ghost mut states: Seq<StateV> = seq![st0];
        let ghost mut power: Seq<Seq<PowerV>> = seq![des.power];
        let ghost mut nodes: Seq<Option<SexpV>> = Seq::empty();
        let mut used = self.taken_refs();
        let mut number: u64 = 1;
        let n: usize = self.des.power.len();
        let mut i: usize = 0;
        assert(base =~= base + present(nodes));
        assert(des =~= DesignV { power: power.last(), ..des });
        while i < n
            invariant
                i <= n,
                n <= 0x10_0000,
                n == des.power.len(),
                n == self.des.power@.len(),
                self.wf(),
                self.shelf == old(self).shelf,
                self.des@ == (DesignV { power: power.last(), ..des }),
                forall|k: int| i <= k < n ==> #[trigger] self.des@.power[k] == des.power[k],
                text::views(used@) == numbering(des.power, i as int).used,
                used@.len() <= n + i,
                number == numbering(des.power, i as int).n,
                number <= 1 + 0x20_0000 * i,
                power_done(st0, des, self.shelf, states, power, nodes, i as int),
                self.state() == states.last(),
                sexp::nodes_v(out@) == base + present(nodes),
                sexp::all_ok(sexp::nodes_v(out@)),
            decreases n - i,
        {
            let ghost s1 = states;
            let ghost p1 = power;
            let ghost n1 = nodes;
            assert(self.des@.power[i as int] == des.power[i as int]);
            assert(self.des@.power[i as int] == self.des.power@[i as int]@);
            if self.des.power[i].reference.as_str().unicode_len() == 0 {
                number = free_number(&used, number);
                let ghost u0 = used@;
                used.push(make_ref(number));
                assert(text::views(used@) =~= text::views(u0).push(power_ref(number as nat)));
            }
            assert(number == numbering(des.power, i + 1).n);
            assert(text::views(used@) == numbering(des.power, i + 1).used);
            let ghost dk = self.des@;
            let e = self.emit_power(i, number);
            let ghost ev = sexp_v(e);
            proof {
                states = s1.push(self.state());
                power = p1.push(self.des@.power);
                nodes = n1.push(ev);
                assert(nodes.drop_last() =~= n1);
                assert(self.des@ =~= DesignV { power: power.last(), ..des });
                assert forall|k: int| 0 <= k < i + 1 implies power_emitted(
                    states[k],
                    DesignV { power: power[k], ..des },
                    self.shelf,
                    k,
                    numbering(des.power, k + 1).n,
                    states[k + 1],
                    power[k + 1],
                    #[trigger] nodes[k],
                ) by {
                    if k < i {
                        assert(nodes[k] == n1[k]);
                        assert(states[k] == s1[k] && states[k + 1] == s1[k + 1]);
                        assert(power[k] == p1[k] && power[k + 1] == p1[k + 1]);
                    } else {
                        assert(states[k] == s1.last() && power[k] == p1.last());
                        assert(dk == DesignV { power: power[k], ..des });
                    }
                }
                assert(self.des@.power.len() == n);
                assert forall|k: int| i + 1 <= k < n implies #[trigger] self.des@.power[k]
                    == des.power[k] by {
                    assert(dk.power[k] == des.power[k]);
                }
            }
            let ghost o1 = sexp::nodes_v(out@);
            match e {
                Some(x) => {
                    out.push(x);
                    assert(sexp::nodes_v(out@) =~= o1.push(x@));
                    assert(sexp::nodes_v(out@) =~= base + present(nodes));
                },
                None => {},
            }
            i += 1;
        }
        Ghost((states, power, nodes))
    }

    /// Writes the whole sheet. The identifiers that it makes up are free; all else is fixed by the
    /// design and the symbols at hand.
    #[verifier::spinoff_prover]
    #[verifier::rlimit(60)]
    pub fn compile(&mut self) -> (r: String)
        requires
            old(self).wf(),
            old(self).des@.power.len() <= 0x10_0000,
            forall|i: int|
                0 <= i < old(self).des@.parts.len() ==> part_texts_ok(
                    #[trigger] old(self).des@.parts[i],
                ),
        ensures
            final(self).wf(),
            final(self).shelf == old(self).shelf,
            exists|t: TrailV| #[trigger]
                compiled(
                    old(self).des@,
                    old(self).shelf,
                    old(self).state(),
                    t,
                    final(self).des@,
                    final(self).state(),
                    r@,
                ),
    {
        let ghost d0 = self.des@;
        let ghost st0 = self.state();
        let ghost n = d0.parts.len() as int;
        let ghost m = d0.power.len() as int;
        self.name_sheet();
        let ghost d1 = self.des@;
        let mut nodes: Vec<Sexp> = Vec::new();
        let Ghost(a) = self.emit_parts(&mut nodes);
        let Ghost(b) = self.emit_powers(&mut nodes);
        let ghost d2 = self.des@;
        let ghost st2 = self.state();
        let libs = sexp::dup_named(&self.libs);
        let js = self.compute_junctions();
        let segs = wire_segments(&self.des);
        let ids = SheetIds {
            junctions: fresh_ids(js.len()),
            nc: fresh_ids(self.des.nc.len()),
            wires: fresh_ids(segs.len()),
            rects: fresh_ids(self.des.rects.len()),
            texts: fresh_ids(self.des.texts.len()),
            labels: fresh_ids(self.des.labels.len()),
        };
        let root = write_sheet(&self.des, &libs, &js, &nodes, &ids);
        let body = dumps(&root, 0);
        let out = concat3(body.as_str(), "\n", "");
        proof {
            reveal_strlit("");
            assert(body@ + "\n"@ + ""@ =~= body@ + "\n"@);
            let t = TrailV {
                uuid: d1.uuid,
                states: a.0,
                power_states: b.0,
                power: b.1,
                nodes: a.1 + b.2,
                ids: ids@,
            };
            assert(t.nodes.take(n) =~= a.1);
            assert(t.nodes.skip(n) =~= b.2);
            lemma_present(a.1, b.2);
            assert(d2 =~= DesignV { power: b.1[m], ..d1 });
            assert(a.0.last() == a.0[n]);
            assert(b.0.last() == b.0[m]);
            assert(compiled(d0, self.shelf, st0, t, self.des@, self.state(), out@));
        }
        out
    }
}

proof fn lemma_present(a: Seq<Option<SexpV>>, b: Seq<Option<SexpV>>)
    ensures
        present(a + b) == present(a) + present(b),
    decreases b.len(),
{
    if b.len() == 0 {
        assert(a + b =~= a);
        assert(present(a) + present(b) =~= present(a));
    } else {
        lemma_present(a, b.drop_last());
        assert((a + b).drop_last() =~= a + b.drop_last());
        assert((a + b).last() == b.last());
        assert(present(a + b) =~= present(a) + present(b));
    }
}

/// Compiling with nothing gathered before.
pub open spec fn compiled_anew(
    des0: DesignV,
    shelf: Shelf,
    des: DesignV,
    st: StateV,
    out: Seq<char>,
) -> bool {
    exists|t: TrailV, st0: StateV|
        {
            &&& #[trigger] compiled(des0, shelf, st0, t, des, st, out)
            &&& st0.libs.len() == 0
            &&& st0.infos.len() == 0
            &&& st0.errors.len() == 0
            &&& st0.texts.len() == 0
        }
}

/// Compiles a design.
pub fn compile_design(des: Design, shelf: Shelf) -> (r: (String, Compiler))
    requires
        des@.ok(),
        des@.power.len() <= 0x10_0000,
        shelf.covers(des@.lib_symbols),
        forall|i: int| 0 <= i < des@.parts.len() ==> part_texts_ok(#[trigger] des@.parts[i]),
    ensures
        r.1.wf(),
        r.1.shelf == shelf,
        compiled_anew(des@, shelf, r.1.des@, r.1.state(), r.0@),
{
    let ghost d0 = des@;
    let mut c = Compiler::new(des, shelf);
    let ghost st0 = c.state();
    let ghost sh = c.shelf;
    let out = c.compile();
    proof {
        let t = choose|t: TrailV| #[trigger]
            compiled(d0, sh, st0, t, c.des@, c.state(), out@);
        assert(compiled(d0, shelf, st0, t, c.des@, c.state(), out@));
    }
    (out, c)
}

} // verus!
