//! Pin references: points that are written as a part's reference and a pin.
use crate::compile;
use crate::extract;
use crate::extract::{to_i32, to_whole};
use crate::geom;
use crate::geom::Dir;
use crate::json;
use crate::json::{dup_values, entry, put_entry, Json, JsonV};
use crate::model_json;
use crate::model_json::{list_of, number_item, object_of, whole_or};
use crate::names;
use crate::names::sort_names;
use crate::order_map;
use crate::order_map::OrderMap;
use crate::symlib;
use crate::symlib::{mirror_of, rot_point, turned_dir, Pin, SymbolIndex, SymbolInfo};
use crate::text;
use crate::text::{chars_of, is_whitespace, join, replace_all, same, Line};
use std::sync::Arc;
use vstd::prelude::*;

verus! {

/// Largest coordinate, in millionths of a grid step, among points that are resolved.
pub const POINT_MAX: i64 = 4_000_000_000_000_000;

/// What `str::to_lowercase` gives.
pub uninterp spec fn lowercase(s: Seq<char>) -> Seq<char>;

/// `str::to_lowercase`: the text with every letter lowered, a function of the text alone.
#[verifier::external_body]
fn lower(s: &str) -> (r: String)
    ensures
        r@ == lowercase(s@),
{
    s.to_lowercase()
}

// ---------------------------------------------------------------- values in messages
pub open spec fn quoted_text(s: Seq<char>) -> Seq<char> {
    "'"@ + text::replaced(text::replaced(s, "\\"@, "\\\\"@), "'"@, "\\'"@) + "'"@
}

/// A value as messages show it.
pub open spec fn repr_of(v: JsonV) -> Seq<char>
    decreases v, 1nat,
{
    match v {
        JsonV::Str(s) => quoted_text(s),
        JsonV::Null => "None"@,
        JsonV::Bool(b) => if b {
            "True"@
        } else {
            "False"@
        },
        JsonV::Arr(a) => "["@ + repr_items(a, a.len()) + "]"@,
        _ => json::text_of(v),
    }
}

pub open spec fn repr_items(v: Seq<JsonV>, n: nat) -> Seq<char>
    decreases v, 0nat, n,
{
    if n == 0 || n > v.len() {
        Seq::empty()
    } else if n == 1 {
        repr_of(v[0])
    } else {
        repr_items(v, (n - 1) as nat) + ", "@ + repr_of(v[n - 1])
    }
}

fn quote(s: &str) -> (r: String)
    ensures
        r@ == quoted_text(s@),
{
    proof {
        reveal_strlit("\\");
        reveal_strlit("'");
    }
    let a = replace_all(s, "\\", "\\\\");
    let b = replace_all(a.as_str(), "'", "\\'");
    Line::of("'").add(b.as_str()).add("'").done()
}

/// A value as messages show it.
pub fn repr(v: &Json) -> (r: String)
    requires
        json::ok(v@),
    ensures
        r@ == repr_of(v@),
    decreases v,
{
    match v {
        Json::Str(s) => quote(s.as_str()),
        Json::Null => "None".to_owned(),
        Json::Bool(b) => if *b {
            "True".to_owned()
        } else {
            "False".to_owned()
        },
        Json::Arr(a) => {
            let ghost av = json::values_v(a@);
            proof {
                json::lemma_arr_view(*a);
                json::lemma_ok_arr(av);
                assert(v@ == JsonV::Arr(av));
            }
            let mut out = String::new();
            let mut i: usize = 0;
            assert(out@ =~= repr_items(av, 0));
            while i < a.len()
                invariant
                    i <= a@.len(),
                    v is Arr,
                    v->Arr_0 == *a,
                    av == json::values_v(a@),
                    json::all_ok(av),
                    out@ == repr_items(av, i as nat),
                decreases a@.len() - i,
            {
                assert(decreases_to!(v => v->Arr_0));
                assert(decreases_to!(a => a@[i as int]));
                assert(av[i as int] == a@[i as int]@);
                assert(json::ok(av[i as int]));
                let t = repr(&a[i]);
                let ghost o1 = out@;
                if i > 0 {
                    out.append(", ");
                }
                out.append(t.as_str());
                assert(out@ =~= repr_items(av, (i + 1) as nat));
                i += 1;
            }
            Line::of("[").add(out.as_str()).add("]").done()
        },
        _ => v.to_text(),
    }
}

// ---------------------------------------------------------------- pins of parts
/// Outward direction of a pin after the instance transform.
pub fn pin_dir(pin: &Pin, rot: i32, mirror: &str) -> (d: Dir)
    ensures
        d == symlib::dir_spec(pin.angle as int, rot as int, symlib::mirror_spec(mirror@)),
{
    turned_dir(pin.angle, rot, mirror_of(mirror))
}

/// Where a pin stands, in thousandths of a grid step, and which way it points.
#[derive(Debug, Clone, Copy, PartialEq, Eq)]
pub struct PinSpot {
    pub x: i64,
    pub y: i64,
    pub dir: Dir,
}

/// Pin numbers and names with the spots of the pins; the first entry of a key counts.
#[derive(Debug)]
pub struct PinMap {
    pub v: Vec<(String, PinSpot)>,
}

pub type SpotsV = Seq<(Seq<char>, PinSpot)>;

pub open spec fn spot_ok(p: PinSpot) -> bool {
    -5_000_000_000_000 <= p.x <= 5_000_000_000_000 && -5_000_000_000_000 <= p.y <= 5_000_000_000_000
        && geom::is_dir(p.dir)
}

pub open spec fn spots_ok(v: SpotsV) -> bool {
    forall|i: int| 0 <= i < v.len() ==> spot_ok((#[trigger] v[i]).1)
}

/// An entry for a key that has none yet.
pub open spec fn put_new(v: SpotsV, k: Seq<char>, p: PinSpot) -> SpotsV {
    if order_map::look(v, k) is Some {
        v
    } else {
        v.push((k, p))
    }
}

impl PinMap {
    pub open spec fn view(&self) -> SpotsV {
        Seq::new(self.v@.len(), |i: int| (self.v@[i].0@, self.v@[i].1))
    }

    pub fn new() -> (r: PinMap)
        ensures
            r@ == SpotsV::empty(),
    {
        let r = PinMap { v: Vec::new() };
        assert(r@ =~= SpotsV::empty());
        r
    }

    /// The spot of a pin number or name.
    pub fn get(&self, k: &str) -> (r: Option<PinSpot>)
        ensures
            r == order_map::look(self@, k@),
    {
        let ghost s = self@;
        let mut i: usize = 0;
        while i < self.v.len()
            invariant
                i <= self.v@.len(),
                s == self@,
                order_map::seek(s, k@, 0) == order_map::seek(s, k@, i as int),
            decreases self.v@.len() - i,
        {
            assert(s[i as int] == (self.v@[i as int].0@, self.v@[i as int].1));
            if same(self.v[i].0.as_str(), k) {
                return Some(self.v[i].1);
            }
            i += 1;
        }
        None
    }

    fn insert(&mut self, k: &str, p: PinSpot)
        ensures
            final(self)@ == put_new(old(self)@, k@, p),
    {
        let ghost s = self@;
        if self.get(k).is_none() {
            self.v.push((k.to_owned(), p));
            assert(self@ =~= s.push((k@, p)));
        }
    }

    /// Pin numbers and names, in order.
    pub fn keys(&self) -> (r: Vec<String>)
        ensures
            text::views(r@) == Seq::new(self@.len(), |i: int| self@[i].0),
    {
        let mut r: Vec<String> = Vec::new();
        let mut i: usize = 0;
        while i < self.v.len()
            invariant
                i <= self.v@.len(),
                r@.len() == i,
                forall|k: int| 0 <= k < i ==> (#[trigger] r@[k])@ == self@[k].0,
            decreases self.v@.len() - i,
        {
            r.push(self.v[i].0.clone());
            i += 1;
        }
        assert(text::views(r@) =~= Seq::new(self@.len(), |i: int| self@[i].0));
        r
    }
}

/// A coordinate at an offset from grid millionths, in thousandths of a grid step.
pub open spec fn spot_coord(a: int, d: int) -> int {
    model_json::even_quotient(a * 127 + d * 1000, 127_000)
}

pub open spec fn spot_of(pin: Pin, rot: int, mirror: Seq<char>, ax: int, ay: int) -> PinSpot {
    let m = symlib::mirror_spec(mirror);
    let t = symlib::turned(pin.x as int, pin.y as int, rot, m);
    PinSpot {
        x: spot_coord(ax, t.0) as i64,
        y: spot_coord(ay, t.1) as i64,
        dir: symlib::dir_spec(pin.angle as int, rot, m),
    }
}

/// The spots of the first `n` pins of a unit, by number and by name.
pub open spec fn unit_spots(
    pins: Seq<Pin>,
    rot: int,
    mirror: Seq<char>,
    ax: int,
    ay: int,
    n: int,
) -> SpotsV
    decreases n,
{
    if n <= 0 {
        Seq::empty()
    } else {
        let p = pins[n - 1];
        let s = spot_of(p, rot, mirror, ax, ay);
        let v = put_new(unit_spots(pins, rot, mirror, ax, ay, n - 1), p.number@, s);
        if p.name@.len() == 0 {
            v
        } else {
            put_new(v, p.name@, s)
        }
    }
}

fn offset_coord(a: i64, d: i64) -> (r: i64)
    requires
        -POINT_MAX <= a <= POINT_MAX,
        symlib::turned_ok(d as int),
    ensures
        r == spot_coord(a as int, d as int),
        -5_000_000_000_000 <= r <= 5_000_000_000_000,
{
    let q: i128 = model_json::divide_even(a as i128 * 127 + d as i128 * 1000, 127_000);
    q as i64
}

fn pin_map(info: &SymbolInfo, unit: i32, rot: i32, mirror: &str, ax: i64, ay: i64) -> (m: PinMap)
    requires
        info.wf(),
        -POINT_MAX <= ax <= POINT_MAX,
        -POINT_MAX <= ay <= POINT_MAX,
    ensures
        m@ == unit_spots(
            info.unit_spec(unit as int).pins@,
            rot as int,
            mirror@,
            ax as int,
            ay as int,
            info.unit_spec(unit as int).pins@.len() as int,
        ),
        spots_ok(m@),
{
    let pins = info.pins_for_unit(unit);
    let mut m = PinMap::new();
    let mr = mirror_of(mirror);
    let mut i: usize = 0;
    while i < pins.len()
        invariant
            i <= pins@.len(),
            mr == symlib::mirror_spec(mirror@),
            forall|k: int| 0 <= k < pins@.len() ==> symlib::pin_ok(#[trigger] pins@[k]),
            -POINT_MAX <= ax <= POINT_MAX,
            -POINT_MAX <= ay <= POINT_MAX,
            m@ == unit_spots(pins@, rot as int, mirror@, ax as int, ay as int, i as int),
            spots_ok(m@),
        decreases pins@.len() - i,
    {
        let pin = &pins[i];
        assert(symlib::pin_ok(pins@[i as int]));
        let (dx, dy) = rot_point(pin.x, pin.y, rot, mr);
        let s = PinSpot {
            x: offset_coord(ax, dx),
            y: offset_coord(ay, dy),
            dir: pin_dir(pin, rot, mirror),
        };
        assert(s == spot_of(*pin, rot as int, mirror@, ax as int, ay as int));
        assert(spot_ok(s)) by {
            reveal(symlib::dir_spec);
        }
        m.insert(pin.number.as_str(), s);
        if pin.name.as_str().unicode_len() != 0 {
            m.insert(pin.name.as_str(), s);
        }
        i += 1;
    }
    m
}

/// Pin spots by part reference.
#[derive(Debug)]
pub struct PinTable {
    pub v: Vec<(String, PinMap)>,
}

pub type TableV = Seq<(Seq<char>, SpotsV)>;

pub open spec fn table_ok(t: TableV) -> bool {
    forall|i: int| 0 <= i < t.len() ==> spots_ok((#[trigger] t[i]).1)
}

impl PinTable {
    pub open spec fn view(&self) -> TableV {
        Seq::new(self.v@.len(), |i: int| (self.v@[i].0@, self.v@[i].1@))
    }

    pub fn new() -> (r: PinTable)
        ensures
            r@ == TableV::empty(),
    {
        let r = PinTable { v: Vec::new() };
        assert(r@ =~= TableV::empty());
        r
    }

    fn place(&self, k: &str) -> (r: usize)
        ensures
            r == order_map::seek(self@, k@, 0),
            r <= self.v@.len(),
    {
        let ghost s = self@;
        let mut i: usize = 0;
        while i < self.v.len()
            invariant
                i <= self.v@.len(),
                s == self@,
                order_map::seek(s, k@, 0) == order_map::seek(s, k@, i as int),
            decreases self.v@.len() - i,
        {
            assert(s[i as int] == (self.v@[i as int].0@, self.v@[i as int].1@));
            if same(self.v[i].0.as_str(), k) {
                return i;
            }
            i += 1;
        }
        i
    }

    /// The pins of a part.
    pub fn get(&self, k: &str) -> (r: Option<&PinMap>)
        ensures
            match r {
                Some(m) => order_map::look(self@, k@) == Some(m@),
                None => order_map::look(self@, k@) is None,
            },
            table_ok(self@) && r is Some ==> spots_ok(r->0@),
    {
        let i: usize = self.place(k);
        if i < self.v.len() {
            assert(self@[i as int] == (self.v@[i as int].0@, self.v@[i as int].1@));
            Some(&self.v[i].1)
        } else {
            None
        }
    }

    pub fn contains(&self, k: &str) -> (r: bool)
        ensures
            r == (order_map::look(self@, k@) is Some),
    {
        self.place(k) < self.v.len()
    }

    /// References, in order.
    pub fn refs(&self) -> (r: Vec<String>)
        ensures
            text::views(r@) == Seq::new(self@.len(), |i: int| self@[i].0),
    {
        let mut r: Vec<String> = Vec::new();
        let mut i: usize = 0;
        while i < self.v.len()
            invariant
                i <= self.v@.len(),
                r@.len() == i,
                forall|k: int| 0 <= k < i ==> (#[trigger] r@[k])@ == self@[k].0,
            decreases self.v@.len() - i,
        {
            r.push(self.v[i].0.clone());
            i += 1;
        }
        assert(text::views(r@) =~= Seq::new(self@.len(), |i: int| self@[i].0));
        r
    }

    fn insert(&mut self, k: &str, m: PinMap)
        requires
            table_ok(old(self)@),
            spots_ok(m@),
        ensures
            final(self)@ == order_map::put(old(self)@, k@, m@),
            table_ok(final(self)@),
    {
        let ghost s = self@;
        let ghost mv = m@;
        let i: usize = self.place(k);
        if i < self.v.len() {
            proof {
                order_map::lemma_seek(s, k@, 0);
            }
            self.v[i].1 = m;
            assert(self@ =~= s.update(i as int, (k@, mv)));
        } else {
            self.v.push((k.to_owned(), m));
            assert(self@ =~= s.push((k@, mv)));
        }
    }
}

// ---------------------------------------------------------------- the table of a design
/// The reference of a part; a value that is no text is shown as JSON.
pub open spec fn part_name(p: JsonV) -> Seq<char> {
    match json::field(p, "id"@) {
        Some(JsonV::Str(s)) => s,
        Some(v) => json::text_of(v),
        None => Seq::empty(),
    }
}

/// The text behind a key, nothing where there is none.
pub open spec fn text_field(p: JsonV, k: Seq<char>) -> Seq<char> {
    match json::field(p, k) {
        Some(JsonV::Str(s)) => s,
        _ => Seq::empty(),
    }
}

pub open spec fn part_place(p: JsonV, i: int) -> int {
    model_json::num_item(model_json::list_at(json::entries_of(p), "at"@), i)
}

/// The pins of a part that is drawn with a symbol.
pub open spec fn part_spots(info: SymbolInfo, p: JsonV) -> SpotsV {
    let o = json::entries_of(p);
    let pins = info.unit_spec(model_json::whole_else(o, "unit"@, 1)).pins@;
    unit_spots(
        pins,
        model_json::whole_else(o, "rot"@, 0),
        text_field(p, "mirror"@),
        part_place(p, 0),
        part_place(p, 1),
        pins.len() as int,
    )
}

/// The pins of the first `n` parts whose symbols are in the index.
pub open spec fn indexed_table(parts: Seq<JsonV>, index: SymbolIndex, n: int) -> TableV
    decreases n,
{
    if n <= 0 {
        Seq::empty()
    } else {
        let t = indexed_table(parts, index, n - 1);
        let p = parts[n - 1];
        match index.found(text_field(p, "lib"@)) {
            Some(info) => order_map::put(t, part_name(p), part_spots(*info, p)),
            None => t,
        }
    }
}

/// The key under which the base design holds the symbol of a part.
pub open spec fn own_key(p: JsonV) -> Seq<char> {
    if text_field(p, "lib_name"@).len() > 0 {
        text_field(p, "lib_name"@)
    } else {
        text_field(p, "lib"@)
    }
}

/// A table with the pins of those of the first `n` parts that it lacks and whose symbols the base
/// design holds.
pub open spec fn full_table(
    t: TableV,
    parts: Seq<JsonV>,
    own: OrderMap<Arc<SymbolInfo>>,
    n: int,
) -> TableV
    decreases n,
{
    if n <= 0 {
        t
    } else {
        let u = full_table(t, parts, own, n - 1);
        let p = parts[n - 1];
        if own.has(own_key(p)) && order_map::look(u, part_name(p)) is None {
            order_map::put(u, part_name(p), part_spots(*own.value(own_key(p)), p))
        } else {
            u
        }
    }
}

/// The pins of all parts of a design.
pub open spec fn design_table(
    d: Seq<(Seq<char>, JsonV)>,
    index: SymbolIndex,
    own: OrderMap<Arc<SymbolInfo>>,
) -> TableV {
    parts_table(model_json::list_at(d, "parts"@), index, own)
}

/// The pins of parts.
pub open spec fn parts_table(
    parts: Seq<JsonV>,
    index: SymbolIndex,
    own: OrderMap<Arc<SymbolInfo>>,
) -> TableV {
    let n = parts.len() as int;
    full_table(indexed_table(parts, index, n), parts, own, n)
}

pub(crate) fn field_text(p: &Json, k: &str) -> (r: String)
    ensures
        r@ == text_field(p@, k@),
{
    let r = match p.get(k) {
        Some(v) => match v.as_str() {
            Some(s) => s.clone(),
            None => String::new(),
        },
        None => String::new(),
    };
    assert(r@ =~= text_field(p@, k@));
    r
}

pub(crate) fn name_of(p: &Json) -> (r: String)
    requires
        json::ok(p@),
    ensures
        r@ == part_name(p@),
{
    match p.get("id") {
        Some(v) => match v {
            Json::Str(s) => s.clone(),
            _ => v.to_text(),
        },
        None => {
            let r = String::new();
            assert(r@ =~= Seq::<char>::empty());
            r
        },
    }
}

/// The number at a position of a list within a bound.
fn bounded_item(v: &Vec<Json>, i: usize) -> (r: i64)
    requires
        json::all_within(json::values_v(v@), POINT_MAX as int),
    ensures
        r == model_json::num_item(json::values_v(v@), i as int),
        -POINT_MAX <= r <= POINT_MAX,
{
    let ghost vv = json::values_v(v@);
    proof {
        assert forall|k: int| 0 <= k < vv.len() implies json::ok(#[trigger] vv[k]) by {
            json::lemma_within_ok(vv[k], POINT_MAX as int);
        }
        if i < vv.len() {
            assert(json::within(vv[i as int], POINT_MAX as int));
        }
    }
    number_item(v, i)
}

fn spots_of(info: &SymbolInfo, p: &Json) -> (m: PinMap)
    requires
        info.wf(),
        json::within(p@, POINT_MAX as int),
    ensures
        m@ == part_spots(*info, p@),
        spots_ok(m@),
{
    proof {
        json::lemma_within_ok(p@, POINT_MAX as int);
        json::lemma_items_within(p@, POINT_MAX as int);
        let o = json::entries_of(p@);
        json::lemma_look_within(o, "at"@, POINT_MAX as int);
        match order_map::look(o, "at"@) {
            Some(v) => json::lemma_items_within(v, POINT_MAX as int),
            None => {},
        }
    }
    let o = object_of(p);
    let at = list_of(&o, "at");
    let mirror = field_text(p, "mirror");
    pin_map(
        info,
        whole_or(&o, "unit", 1),
        whole_or(&o, "rot", 0),
        mirror.as_str(),
        bounded_item(&at, 0),
        bounded_item(&at, 1),
    )
}

/// The pins of all parts of a design, from the index and from the symbols of the base design.
pub(crate) fn pin_lookup_table(
    parts: &Vec<Json>,
    index: &SymbolIndex,
    own: &OrderMap<Arc<SymbolInfo>>,
) -> (t: PinTable)
    requires
        json::all_within(json::values_v(parts@), POINT_MAX as int),
        index.wf(),
        compile::infos_ok(*own),
    ensures
        t@ == parts_table(json::values_v(parts@), *index, *own),
        table_ok(t@),
{
    let ghost pv = json::values_v(parts@);
    let mut t = PinTable::new();
    let mut i: usize = 0;
    while i < parts.len()
        invariant
            i <= parts@.len(),
            pv == json::values_v(parts@),
            json::all_within(pv, POINT_MAX as int),
            index.wf(),
            t@ == indexed_table(pv, *index, i as int),
            table_ok(t@),
        decreases parts@.len() - i,
    {
        assert(pv[i as int] == parts@[i as int]@);
        assert(json::within(pv[i as int], POINT_MAX as int));
        proof {
            json::lemma_within_ok(pv[i as int], POINT_MAX as int);
        }
        let lib = field_text(&parts[i], "lib");
        match index.get(lib.as_str()) {
            Some(info) => {
                let m = spots_of(info, &parts[i]);
                t.insert(name_of(&parts[i]).as_str(), m);
            },
            None => {},
        }
        i += 1;
    }
    let ghost t0 = t@;
    i = 0;
    while i < parts.len()
        invariant
            i <= parts@.len(),
            pv == json::values_v(parts@),
            json::all_within(pv, POINT_MAX as int),
            compile::infos_ok(*own),
            t@ == full_table(t0, pv, *own, i as int),
            table_ok(t@),
        decreases parts@.len() - i,
    {
        assert(pv[i as int] == parts@[i as int]@);
        assert(json::within(pv[i as int], POINT_MAX as int));
        proof {
            json::lemma_within_ok(pv[i as int], POINT_MAX as int);
        }
        let named = field_text(&parts[i], "lib_name");
        let key = if named.as_str().unicode_len() > 0 {
            named
        } else {
            field_text(&parts[i], "lib")
        };
        match own.get(key.as_str()) {
            Some(info) => {
                proof {
                    order_map::lemma_first_of(own.names(), key@);
                }
                let name = name_of(&parts[i]);
                if !t.contains(name.as_str()) {
                    let m = spots_of(info, &parts[i]);
                    t.insert(name.as_str(), m);
                }
            },
            None => {},
        }
        i += 1;
    }
    t
}

// ---------------------------------------------------------------- resolving a point
pub open spec fn lead(s: Seq<char>, i: int) -> int
    decreases s.len() - i,
{
    if 0 <= i < s.len() && text::is_blank(s[i]) {
        lead(s, i + 1)
    } else {
        i
    }
}

pub open spec fn trail(s: Seq<char>, n: int) -> int
    decreases n,
{
    if 0 < n <= s.len() && text::is_blank(s[n - 1]) {
        trail(s, n - 1)
    } else {
        n
    }
}

/// A text without whitespace at its ends.
pub open spec fn trimmed(s: Seq<char>) -> Seq<char> {
    let a = lead(s, 0);
    let b = trail(s, s.len() as int);
    if a >= b {
        Seq::empty()
    } else {
        s.subrange(a, b)
    }
}

fn trim(s: &str) -> (r: Vec<char>)
    ensures
        r@ == trimmed(s@),
{
    let v = chars_of(s);
    let ghost sv = v@;
    let mut a: usize = 0;
    while a < v.len() && is_whitespace(v[a])
        invariant
            a <= v@.len(),
            sv == v@,
            lead(sv, 0) == lead(sv, a as int),
        decreases v@.len() - a,
    {
        a += 1;
    }
    let mut b: usize = v.len();
    while b > 0 && is_whitespace(v[b - 1])
        invariant
            b <= v@.len(),
            sv == v@,
            trail(sv, sv.len() as int) == trail(sv, b as int),
        decreases b,
    {
        b -= 1;
    }
    let mut r: Vec<char> = Vec::new();
    let mut i: usize = a;
    while i < b
        invariant
            a <= i,
            i <= b || i == a,
            b <= v@.len(),
            sv == v@,
            r@ == (if a >= b {
                Seq::empty()
            } else {
                sv.subrange(a as int, i as int)
            }),
        decreases b - i,
    {
        r.push(v[i]);
        assert(sv.subrange(a as int, i + 1) =~= sv.subrange(a as int, i as int).push(sv[i as int]));
        i += 1;
    }
    r
}

/// The first dot from `i` on.
pub open spec fn first_dot(s: Seq<char>, i: int) -> int
    decreases s.len() - i,
{
    if i < 0 || i >= s.len() {
        s.len() as int
    } else if s[i] == '.' {
        i
    } else {
        first_dot(s, i + 1)
    }
}

/// The first dot from `i` on behind the reference of a known part.
pub open spec fn part_dot(t: TableV, s: Seq<char>, i: int) -> int
    decreases s.len() - i,
{
    if i < 0 || i >= s.len() {
        s.len() as int
    } else if s[i] == '.' && order_map::look(t, s.take(i)) is Some {
        i
    } else {
        part_dot(t, s, i + 1)
    }
}

/// The first reference from `i` on that differs from a name at most in case.
pub open spec fn like_ref(t: TableV, r: Seq<char>, i: int) -> int
    decreases t.len() - i,
{
    if i < 0 || i >= t.len() {
        t.len() as int
    } else if lowercase(t[i].0) == lowercase(r) {
        i
    } else {
        like_ref(t, r, i + 1)
    }
}

/// A resolved point in millionths of a grid step, and the direction of the pin it names.
pub struct FoundV {
    pub x: int,
    pub y: int,
    pub dir: Option<Dir>,
    pub error: Option<Seq<char>>,
}

pub open spec fn nothing(dir: Option<Dir>, error: Seq<char>) -> FoundV {
    FoundV { x: 0, y: 0, dir, error: Some(error) }
}

pub open spec fn no_point(ctx: Seq<char>, v: JsonV) -> Seq<char> {
    ctx + ": bad point "@ + repr_of(v)
}

pub open spec fn net_point(ctx: Seq<char>, v: JsonV) -> Seq<char> {
    ctx + ": bad point "@ + repr_of(v)
        + " (use [x,y] or \"REF.PIN\"; net names are not points - use a power symbol or label at a coordinate instead)"@
}

pub open spec fn unknown_part(ctx: Seq<char>, t: TableV, s: Seq<char>, v: JsonV) -> Seq<char> {
    let r = s.take(first_dot(s, 0));
    let k = like_ref(t, r, 0);
    ctx + ": unknown part "@ + quoted_text(r) + " in pin reference "@ + repr_of(v) + (if k
        < t.len() {
        " (did you mean "@ + t[k].0 + "?)"@
    } else {
        Seq::empty()
    })
}

pub open spec fn spot_keys(m: SpotsV) -> Seq<Seq<char>> {
    Seq::new(m.len(), |i: int| m[i].0)
}

pub open spec fn no_pin(ctx: Seq<char>, r: Seq<char>, pin: Seq<char>, m: SpotsV) -> Seq<char> {
    let all = names::sorted(spot_keys(m), m.len() as int);
    ctx + ": part "@ + r + " has no pin "@ + quoted_text(pin) + " (available: "@ + text::joined(
        all.take(geom::lo(30, all.len() as int)),
        ", "@,
    ) + ")"@
}

/// What a written point stands for: a coordinate, or a pin of a part. A text is split at the first
/// dot that follows the reference of a known part.
pub open spec fn found_point(t: TableV, v: JsonV, ctx: Seq<char>) -> FoundV {
    match v {
        JsonV::Str(raw) => {
            let s = trimmed(raw);
            let k = part_dot(t, s, 0);
            if first_dot(s, 0) >= s.len() {
                nothing(None, net_point(ctx, v))
            } else if k >= s.len() {
                nothing(None, unknown_part(ctx, t, s, v))
            } else {
                let m = order_map::look(t, s.take(k))->0;
                match order_map::look(m, s.skip(k + 1)) {
                    Some(p) => FoundV {
                        x: p.x * 1000,
                        y: p.y * 1000,
                        dir: Some(p.dir),
                        error: None,
                    },
                    None => nothing(
                        Some((0i32, 0i32)),
                        no_pin(ctx, s.take(k), s.skip(k + 1), m),
                    ),
                }
            }
        },
        JsonV::Arr(a) => if a.len() == 2 && json::num_in(a[0]) is Some && json::num_in(
            a[1],
        ) is Some {
            FoundV { x: json::num_in(a[0])->0, y: json::num_in(a[1])->0, dir: None, error: None }
        } else {
            nothing(None, no_point(ctx, v))
        },
        _ => nothing(None, no_point(ctx, v)),
    }
}

pub struct Found {
    pub x: i64,
    pub y: i64,
    pub dir: Option<Dir>,
    pub error: Option<String>,
}

impl Found {
    pub open spec fn view(&self) -> FoundV {
        FoundV {
            x: self.x as int,
            y: self.y as int,
            dir: self.dir,
            error: match self.error {
                Some(e) => Some(e@),
                None => None,
            },
        }
    }

    pub open spec fn wf(&self) -> bool {
        &&& -5_000_000_000_000_000 <= self.x <= 5_000_000_000_000_000
        &&& -5_000_000_000_000_000 <= self.y <= 5_000_000_000_000_000
        &&& self.dir is Some ==> geom::is_dir(self.dir->0) || self.dir->0 == (0i32, 0i32)
    }
}

fn missed(dir: Option<Dir>, t: String) -> (r: Found)
    requires
        dir is Some ==> dir->0 == (0i32, 0i32),
    ensures
        r@ == nothing(dir, t@),
        r.wf(),
{
    Found { x: 0, y: 0, dir, error: Some(t) }
}

fn take_chars(v: &Vec<char>, from: usize, to: usize) -> (r: String)
    requires
        from <= to <= v@.len(),
    ensures
        r@ == v@.subrange(from as int, to as int),
{
    let mut r = String::new();
    let mut i: usize = from;
    assert(r@ =~= v@.subrange(from as int, from as int));
    while i < to
        invariant
            from <= i <= to <= v@.len(),
            r@ == v@.subrange(from as int, i as int),
        decreases to - i,
    {
        r.push(v[i]);
        assert(v@.subrange(from as int, i + 1) =~= v@.subrange(from as int, i as int).push(
            v@[i as int],
        ));
        i += 1;
    }
    r
}

fn find_dot(v: &Vec<char>) -> (r: usize)
    ensures
        r == first_dot(v@, 0),
        r <= v@.len(),
{
    let mut i: usize = 0;
    while i < v.len()
        invariant
            i <= v@.len(),
            first_dot(v@, 0) == first_dot(v@, i as int),
        decreases v@.len() - i,
    {
        if v[i] == '.' {
            return i;
        }
        i += 1;
    }
    i
}

impl PinTable {
    fn find_part_dot(&self, v: &Vec<char>) -> (r: usize)
        ensures
            r == part_dot(self@, v@, 0),
            r <= v@.len(),
            r < v@.len() ==> order_map::look(self@, v@.take(r as int)) is Some,
    {
        let mut i: usize = 0;
        while i < v.len()
            invariant
                i <= v@.len(),
                part_dot(self@, v@, 0) == part_dot(self@, v@, i as int),
            decreases v@.len() - i,
        {
            if v[i] == '.' {
                let head = take_chars(v, 0, i);
                assert(head@ =~= v@.take(i as int));
                if self.contains(head.as_str()) {
                    return i;
                }
            }
            i += 1;
        }
        i
    }

    fn unknown(&self, s: &Vec<char>, v: &Json, ctx: &str) -> (r: String)
        requires
            json::ok(v@),
            first_dot(s@, 0) < s@.len(),
        ensures
            r@ == unknown_part(ctx@, self@, s@, v@),
    {
        let k: usize = find_dot(s);
        let name = take_chars(s, 0, k);
        assert(name@ =~= s@.take(k as int));
        let low = lower(name.as_str());
        let ghost t = self@;
        let mut i: usize = 0;
        while i < self.v.len() && !same(lower(self.v[i].0.as_str()).as_str(), low.as_str())
            invariant
                i <= self.v@.len(),
                t == self@,
                low@ == lowercase(name@),
                like_ref(t, name@, 0) == like_ref(t, name@, i as int),
            decreases self.v@.len() - i,
        {
            assert(t[i as int].0 == self.v@[i as int].0@);
            i += 1;
        }
        let q = quote(name.as_str());
        let shown = repr(v);
        let l = Line::of(ctx).add(": unknown part ").add(q.as_str()).add(
            " in pin reference ",
        ).add(shown.as_str());
        let ghost l0 = l@;
        if i < self.v.len() {
            assert(t[i as int].0 == self.v@[i as int].0@);
            let hint = Line::of(" (did you mean ").add(self.v[i].0.as_str()).add("?)").done();
            l.add(hint.as_str()).done()
        } else {
            assert(l0 + Seq::<char>::empty() =~= l0);
            l.done()
        }
    }

    /// What a written point stands for.
    fn resolve(&self, v: &Json, ctx: &str) -> (r: Found)
        requires
            table_ok(self@),
            json::within(v@, POINT_MAX as int),
        ensures
            r@ == found_point(self@, v@, ctx@),
            r.wf(),
    {
        proof {
            json::lemma_within_ok(v@, POINT_MAX as int);
            json::lemma_items_within(v@, POINT_MAX as int);
        }
        match v {
            Json::Str(raw) => {
                let s = trim(raw.as_str());
                if find_dot(&s) >= s.len() {
                    let shown = repr(v);
                    let t = Line::of(ctx).add(": bad point ").add(shown.as_str()).add(
                        " (use [x,y] or \"REF.PIN\"; net names are not points - use a power symbol or label at a coordinate instead)",
                    ).done();
                    return missed(None, t);
                }
                let k: usize = self.find_part_dot(&s);
                if k >= s.len() {
                    return missed(None, self.unknown(&s, v, ctx));
                }
                let name = take_chars(&s, 0, k);
                let pin = take_chars(&s, k + 1, s.len());
                assert(name@ =~= s@.take(k as int));
                assert(pin@ =~= s@.skip(k + 1));
                match self.get(name.as_str()) {
                    Some(m) => match m.get(pin.as_str()) {
                        Some(p) => {
                            proof {
                                order_map::lemma_seek(m@, pin@, 0);
                                assert(spot_ok(p));
                            }
                            Found { x: p.x * 1000, y: p.y * 1000, dir: Some(p.dir), error: None }
                        },
                        None => {
                            let q = quote(pin.as_str());
                            let keys = m.keys();
                            assert(text::views(keys@) =~= spot_keys(m@));
                            assert(keys@.len() == m@.len());
                            let all = first_names(sort_names(&keys), 30);
                            let list = join(&all, ", ");
                            let t = Line::of(ctx).add(": part ").add(name.as_str()).add(
                                " has no pin ",
                            ).add(q.as_str()).add(" (available: ").add(list.as_str()).add(
                                ")",
                            ).done();
                            missed(Some((0i32, 0i32)), t)
                        },
                    },
                    None => missed(None, String::new()),
                }
            },
            _ => {
                match v.as_array() {
                    Some(a) => {
                        if a.len() == 2 {
                            let ghost av = json::values_v(a@);
                            proof {
                                assert(av[0] == a@[0]@ && av[1] == a@[1]@);
                                json::lemma_within_ok(av[0], POINT_MAX as int);
                                json::lemma_within_ok(av[1], POINT_MAX as int);
                                assert(json::within(av[0], POINT_MAX as int));
                                assert(json::within(av[1], POINT_MAX as int));
                            }
                            match (a[0].as_num(), a[1].as_num()) {
                                (Some(x), Some(y)) => {
                                    return Found { x, y, dir: None, error: None };
                                },
                                _ => {},
                            }
                        }
                    },
                    None => {},
                }
                let shown = repr(v);
                let t = Line::of(ctx).add(": bad point ").add(shown.as_str()).done();
                missed(None, t)
            },
        }
    }
}

fn first_names(v: Vec<String>, n: usize) -> (r: Vec<String>)
    ensures
        text::views(r@) == text::views(v@).take(geom::lo(n as int, v@.len() as int)),
{
    let mut r: Vec<String> = Vec::new();
    let mut i: usize = 0;
    while i < v.len() && i < n
        invariant
            i <= v@.len(),
            i <= n,
            r@.len() == i,
            forall|k: int| 0 <= k < i ==> (#[trigger] r@[k])@ == v@[k]@,
        decreases v@.len() - i,
    {
        r.push(v[i].clone());
        i += 1;
    }
    assert(text::views(r@) =~= text::views(v@).take(geom::lo(n as int, v@.len() as int)));
    r
}

// ---------------------------------------------------------------- resolving a design
/// A point in millionths of a grid step.
pub type StepV = (int, int);

pub struct PathV {
    pub pts: Seq<StepV>,
    pub errors: Seq<Seq<char>>,
}

pub open spec fn with_error(v: Seq<Seq<char>>, e: Option<Seq<char>>) -> Seq<Seq<char>> {
    match e {
        Some(t) => v.push(t),
        None => v,
    }
}

/// The first `n` points of a list, and what is wrong with them.
pub open spec fn found_path(t: TableV, v: Seq<JsonV>, ctx: Seq<char>, n: int) -> PathV
    decreases n,
{
    if n <= 0 {
        PathV { pts: Seq::empty(), errors: Seq::empty() }
    } else {
        let p = found_path(t, v, ctx, n - 1);
        let f = found_point(t, v[n - 1], ctx);
        PathV { pts: p.pts.push((f.x, f.y)), errors: with_error(p.errors, f.error) }
    }
}

pub struct WiresV {
    pub wires: Seq<Seq<StepV>>,
    pub errors: Seq<Seq<char>>,
}

pub open spec fn wire_ctx(i: int) -> Seq<char> {
    "wire "@ + text::digits(i as nat)
}

/// The first `n` wires: those that are lists of two points or more.
pub open spec fn found_wires(t: TableV, v: Seq<JsonV>, n: int) -> WiresV
    decreases n,
{
    if n <= 0 {
        WiresV { wires: Seq::empty(), errors: Seq::empty() }
    } else {
        let w = found_wires(t, v, n - 1);
        match v[n - 1] {
            JsonV::Arr(pts) => if pts.len() >= 2 {
                let p = found_path(t, pts, wire_ctx(n - 1), pts.len() as int);
                WiresV { wires: w.wires.push(p.pts), errors: w.errors + p.errors }
            } else {
                WiresV {
                    wires: w.wires,
                    errors: w.errors.push(wire_ctx(n - 1) + ": needs at least 2 points"@),
                }
            },
            _ => WiresV {
                wires: w.wires,
                errors: w.errors.push(wire_ctx(n - 1) + ": needs at least 2 points"@),
            },
        }
    }
}

/// An item of a list: its entries, the wire that leads to it and what is wrong with it.
pub struct ItemV {
    pub m: Seq<(Seq<char>, JsonV)>,
    pub wire: Option<Seq<StepV>>,
    pub error: Option<Seq<char>>,
}

pub open spec fn usual_stub(key: Seq<char>) -> int {
    if key == "labels"@ {
        3
    } else if key == "power"@ {
        2
    } else {
        0
    }
}

/// How far an item stands off its pin, in grid steps.
pub open spec fn stub_of(m: Seq<(Seq<char>, JsonV)>, key: Seq<char>) -> int {
    match order_map::look(m, "stub"@) {
        Some(v) => match json::num_in(v) {
            Some(x) => extract::clamp_i32(extract::whole(x)),
            None => 0,
        },
        None => usual_stub(key),
    }
}

pub open spec fn step_json(x: int, y: int) -> JsonV {
    JsonV::Arr(seq![JsonV::Dec(x), JsonV::Dec(y)])
}

pub open spec fn label_turn(d: Dir) -> int {
    if d == (1i32, 0i32) {
        0
    } else if d == (-1i32, 0i32) {
        180
    } else if d == (0i32, -1i32) {
        90
    } else {
        270
    }
}

pub open spec fn points_out(d: Option<Dir>) -> bool {
    d is Some && d->0 != (0i32, 0i32)
}

/// An item that names a pin stands off it along its direction, with a wire between; one that has a
/// point keeps it.
pub open spec fn found_item(t: TableV, key: Seq<char>, ctx: Seq<char>, it: JsonV) -> ItemV {
    let m = json::entries_of(it);
    let at = order_map::look(m, "at"@);
    let pin = order_map::look(m, "pin"@);
    if pin is Some && at is None {
        let f = found_point(t, pin->0, ctx);
        let stub = stub_of(m, key);
        let off = points_out(f.dir) && stub != 0;
        let d = f.dir->0;
        let x = if off {
            f.x + d.0 * stub * 1_000_000
        } else {
            f.x
        };
        let y = if off {
            f.y + d.1 * stub * 1_000_000
        } else {
            f.y
        };
        let m1 = order_map::put(m, "at"@, step_json(x, y));
        ItemV {
            m: if key == "labels"@ && order_map::look(m1, "rot"@) is None && points_out(f.dir) {
                order_map::put(m1, "rot"@, JsonV::Int(label_turn(d)))
            } else {
                m1
            },
            wire: if off {
                Some(seq![(f.x, f.y), (x, y)])
            } else {
                None
            },
            error: f.error,
        }
    } else if at is Some {
        let f = found_point(t, at->0, ctx);
        ItemV {
            m: order_map::put(m, "at"@, step_json(f.x, f.y)),
            wire: None,
            error: f.error,
        }
    } else {
        ItemV { m, wire: None, error: None }
    }
}

pub struct ItemsV {
    pub items: Seq<JsonV>,
    pub wires: Seq<Seq<StepV>>,
    pub errors: Seq<Seq<char>>,
}

pub open spec fn item_ctx(key: Seq<char>, i: int) -> Seq<char> {
    key + "["@ + text::digits(i as nat) + "]"@
}

pub open spec fn found_items(t: TableV, key: Seq<char>, v: Seq<JsonV>, n: int) -> ItemsV
    decreases n,
{
    if n <= 0 {
        ItemsV { items: Seq::empty(), wires: Seq::empty(), errors: Seq::empty() }
    } else {
        let s = found_items(t, key, v, n - 1);
        let i = found_item(t, key, item_ctx(key, n - 1), v[n - 1]);
        ItemsV {
            items: s.items.push(JsonV::Obj(i.m)),
            wires: match i.wire {
                Some(w) => s.wires.push(w),
                None => s.wires,
            },
            errors: with_error(s.errors, i.error),
        }
    }
}

pub open spec fn found_marks(t: TableV, v: Seq<JsonV>, n: int) -> PathV
    decreases n,
{
    if n <= 0 {
        PathV { pts: Seq::empty(), errors: Seq::empty() }
    } else {
        let p = found_marks(t, v, n - 1);
        let f = found_point(t, v[n - 1], item_ctx("nc"@, n - 1));
        PathV { pts: p.pts.push((f.x, f.y)), errors: with_error(p.errors, f.error) }
    }
}

/// The nearest half of a grid step, counted in halves.
pub open spec fn halves(m: int) -> int {
    model_json::even_quotient(m * 2, 1_000_000)
}

pub open spec fn half_json(k: int) -> JsonV {
    if k % 2 == 0 {
        JsonV::Int(k / 2)
    } else {
        JsonV::Dec(k * 500_000)
    }
}

pub open spec fn half_point(p: StepV) -> JsonV {
    JsonV::Arr(seq![half_json(halves(p.0)), half_json(halves(p.1))])
}

/// An item whose point is moved to the half grid.
pub open spec fn on_half_grid(it: JsonV) -> JsonV {
    let m = json::entries_of(it);
    match order_map::look(m, "at"@) {
        Some(at) => {
            let v = json::items_of(at);
            JsonV::Obj(
                order_map::put(
                    m,
                    "at"@,
                    half_point((model_json::num_item(v, 0), model_json::num_item(v, 1))),
                ),
            )
        },
        None => JsonV::Obj(m),
    }
}

pub open spec fn list_on_half_grid(d: Seq<(Seq<char>, JsonV)>, k: Seq<char>) -> Seq<
    (Seq<char>, JsonV),
> {
    let v = model_json::list_at(d, k);
    order_map::put(d, k, JsonV::Arr(Seq::new(v.len(), |i: int| on_half_grid(v[i]))))
}

pub open spec fn same_halves(a: StepV, b: StepV) -> bool {
    halves(a.0) == halves(b.0) && halves(a.1) == halves(b.1)
}

/// The first `n` points of a wire without those that the half grid puts on the one before.
pub open spec fn spaced(w: Seq<StepV>, n: int) -> Seq<StepV>
    decreases n,
{
    if n <= 0 {
        Seq::empty()
    } else {
        let s = spaced(w, n - 1);
        if s.len() > 0 && same_halves(s.last(), w[n - 1]) {
            s
        } else {
            s.push(w[n - 1])
        }
    }
}

pub open spec fn half_path(w: Seq<StepV>) -> JsonV {
    JsonV::Arr(Seq::new(w.len(), |i: int| half_point(w[i])))
}

/// The first `n` wires on the half grid; those that shrink to a point are dropped.
pub open spec fn clean_wires(v: Seq<Seq<StepV>>, n: int) -> Seq<JsonV>
    decreases n,
{
    if n <= 0 {
        Seq::empty()
    } else {
        let s = spaced(v[n - 1], v[n - 1].len() as int);
        if s.len() >= 2 {
            clean_wires(v, n - 1).push(half_path(s))
        } else {
            clean_wires(v, n - 1)
        }
    }
}

pub struct ResolvedV {
    pub d: Seq<(Seq<char>, JsonV)>,
    pub errors: Seq<Seq<char>>,
}

/// A design whose pin references are replaced by coordinates on the half grid, and what is wrong
/// with them.
pub open spec fn resolved_refs(d: Seq<(Seq<char>, JsonV)>, t: TableV) -> ResolvedV {
    let w0 = model_json::list_at(d, "wires"@);
    let w = found_wires(t, w0, w0.len() as int);
    let l0 = model_json::list_at(d, "labels"@);
    let l = found_items(t, "labels"@, l0, l0.len() as int);
    let d1 = order_map::put(d, "labels"@, JsonV::Arr(l.items));
    let p0 = model_json::list_at(d, "power"@);
    let p = found_items(t, "power"@, p0, p0.len() as int);
    let d2 = order_map::put(d1, "power"@, JsonV::Arr(p.items));
    let x0 = model_json::list_at(d, "texts"@);
    let x = found_items(t, "texts"@, x0, x0.len() as int);
    let d3 = order_map::put(d2, "texts"@, JsonV::Arr(x.items));
    let n0 = model_json::list_at(d, "nc"@);
    let n = found_marks(t, n0, n0.len() as int);
    let wires = w.wires + l.wires + p.wires + x.wires;
    let d4 = list_on_half_grid(
        list_on_half_grid(list_on_half_grid(d3, "parts"@), "power"@),
        "labels"@,
    );
    let d5 = order_map::put(d4, "wires"@, JsonV::Arr(clean_wires(wires, wires.len() as int)));
    ResolvedV {
        d: order_map::put(d5, "nc"@, half_path(n.pts)),
        errors: w.errors + l.errors + p.errors + x.errors + n.errors,
    }
}

/// Largest size of a number in a resolved design.
pub const FAR_MAX: i64 = 8_000_000_000_000_000;

pub type Step = (i64, i64);

pub open spec fn step_ok(p: Step) -> bool {
    -7_500_000_000_000_000 <= p.0 <= 7_500_000_000_000_000 && -7_500_000_000_000_000 <= p.1
        <= 7_500_000_000_000_000
}

pub open spec fn step_v(p: Step) -> StepV {
    (p.0 as int, p.1 as int)
}

pub open spec fn path_v(w: Seq<Step>) -> Seq<StepV> {
    Seq::new(w.len(), |i: int| step_v(w[i]))
}

pub open spec fn steps_ok(w: Seq<Step>) -> bool {
    forall|i: int| 0 <= i < w.len() ==> step_ok(#[trigger] w[i])
}

pub open spec fn paths_v(v: Seq<Vec<Step>>) -> Seq<Seq<StepV>> {
    Seq::new(v.len(), |i: int| path_v(v[i]@))
}

pub open spec fn paths_ok(v: Seq<Vec<Step>>) -> bool {
    forall|i: int| 0 <= i < v.len() ==> steps_ok((#[trigger] v[i])@)
}

pub(crate) fn note(errors: &mut Vec<String>, e: Option<String>)
    ensures
        text::views(final(errors)@) == with_error(
            text::views(old(errors)@),
            match e {
                Some(t) => Some(t@),
                None => None,
            },
        ),
{
    let ghost e0 = text::views(errors@);
    match e {
        Some(t) => {
            let ghost tv = t@;
            errors.push(t);
            assert(text::views(errors@) =~= e0.push(tv));
        },
        None => {},
    }
}

fn half_count(m: i64) -> (r: i64)
    requires
        -FAR_MAX <= m <= FAR_MAX,
    ensures
        r == halves(m as int),
        -16_000_000_000 <= r <= 16_000_000_000,
{
    model_json::divide_even(m as i128 * 2, 1_000_000) as i64
}

fn half_num(m: i64) -> (r: Json)
    requires
        -FAR_MAX <= m <= FAR_MAX,
    ensures
        r@ == half_json(halves(m as int)),
        json::within(r@, FAR_MAX as int),
{
    let k: i64 = half_count(m);
    let a: i64 = if k < 0 { -k } else { k };
    if a % 2 == 0 {
        let h: i64 = a / 2;
        if k < 0 {
            assert(k as int / 2 == -h);
            Json::Int(-h)
        } else {
            Json::Int(h)
        }
    } else {
        assert(k as int % 2 != 0);
        Json::Dec(k * 500_000)
    }
}

fn pair_json(a: Json, b: Json) -> (r: Json)
    requires
        json::within(a@, FAR_MAX as int),
        json::within(b@, FAR_MAX as int),
    ensures
        r@ == JsonV::Arr(seq![a@, b@]),
        json::within(r@, FAR_MAX as int),
{
    let ghost w = seq![a@, b@];
    let mut v: Vec<Json> = Vec::new();
    v.push(a);
    v.push(b);
    proof {
        json::lemma_arr_view(v);
        assert(json::values_v(v@) =~= w);
        json::lemma_within_arr(w, FAR_MAX as int);
    }
    Json::Arr(v)
}

fn half_pt(p: Step) -> (r: Json)
    requires
        -FAR_MAX <= p.0 <= FAR_MAX,
        -FAR_MAX <= p.1 <= FAR_MAX,
    ensures
        r@ == half_point(step_v(p)),
        json::within(r@, FAR_MAX as int),
{
    pair_json(half_num(p.0), half_num(p.1))
}

fn far_list(v: Vec<Json>) -> (r: Json)
    requires
        json::all_within(json::values_v(v@), FAR_MAX as int),
    ensures
        r@ == JsonV::Arr(json::values_v(v@)),
        json::within(r@, FAR_MAX as int),
{
    proof {
        json::lemma_arr_view(v);
        json::lemma_within_arr(json::values_v(v@), FAR_MAX as int);
    }
    Json::Arr(v)
}

fn far_object(v: Vec<(String, Json)>) -> (r: Json)
    requires
        json::fields_within(json::entries_v(v@), FAR_MAX as int),
    ensures
        r@ == JsonV::Obj(json::entries_v(v@)),
        json::within(r@, FAR_MAX as int),
{
    proof {
        json::lemma_obj_view(v);
        json::lemma_within_obj(json::entries_v(v@), FAR_MAX as int);
    }
    Json::Obj(v)
}

fn put_far(d: &mut Vec<(String, Json)>, k: &str, x: Json)
    requires
        json::fields_within(json::entries_v(old(d)@), FAR_MAX as int),
        json::within(x@, FAR_MAX as int),
    ensures
        json::entries_v(final(d)@) == order_map::put(json::entries_v(old(d)@), k@, x@),
        json::fields_within(json::entries_v(final(d)@), FAR_MAX as int),
{
    proof {
        json::lemma_put_within(json::entries_v(d@), k@, x@, FAR_MAX as int);
    }
    put_entry(d, k, x);
}

fn half_path_json(w: &Vec<Step>) -> (r: Json)
    requires
        steps_ok(w@),
    ensures
        r@ == half_path(path_v(w@)),
        json::within(r@, FAR_MAX as int),
{
    let ghost pv = path_v(w@);
    let mut out: Vec<Json> = Vec::new();
    let mut i: usize = 0;
    while i < w.len()
        invariant
            i <= w@.len(),
            steps_ok(w@),
            pv == path_v(w@),
            out@.len() == i,
            forall|k: int|
                0 <= k < i ==> (#[trigger] out@[k])@ == half_point(pv[k]) && json::within(
                    out@[k]@,
                    FAR_MAX as int,
                ),
        decreases w@.len() - i,
    {
        assert(step_ok(w@[i as int]));
        out.push(half_pt(w[i]));
        i += 1;
    }
    assert(json::values_v(out@) =~= Seq::new(pv.len(), |i: int| half_point(pv[i])));
    far_list(out)
}

fn space_out(w: &Vec<Step>) -> (r: Vec<Step>)
    requires
        steps_ok(w@),
    ensures
        path_v(r@) == spaced(path_v(w@), w@.len() as int),
        steps_ok(r@),
{
    let ghost pv = path_v(w@);
    let mut r: Vec<Step> = Vec::new();
    let mut i: usize = 0;
    assert(path_v(r@) =~= spaced(pv, 0));
    while i < w.len()
        invariant
            i <= w@.len(),
            steps_ok(w@),
            pv == path_v(w@),
            path_v(r@) == spaced(pv, i as int),
            steps_ok(r@),
        decreases w@.len() - i,
    {
        assert(step_ok(w@[i as int]));
        let p = w[i];
        let ghost r0 = path_v(r@);
        assert(r0.len() == r@.len());
        let fresh = if r.len() == 0 {
            true
        } else {
            let q = r[r.len() - 1];
            assert(step_ok(r@[r@.len() - 1]));
            assert(r0.last() == step_v(q));
            half_count(q.0) != half_count(p.0) || half_count(q.1) != half_count(p.1)
        };
        if fresh {
            r.push(p);
            assert(path_v(r@) =~= r0.push(step_v(p)));
        }
        i += 1;
    }
    r
}

fn clean_wire_list(v: &Vec<Vec<Step>>) -> (r: Json)
    requires
        paths_ok(v@),
    ensures
        r@ == JsonV::Arr(clean_wires(paths_v(v@), v@.len() as int)),
        json::within(r@, FAR_MAX as int),
{
    let ghost pv = paths_v(v@);
    let mut out: Vec<Json> = Vec::new();
    let mut i: usize = 0;
    assert(json::values_v(out@) =~= clean_wires(pv, 0));
    while i < v.len()
        invariant
            i <= v@.len(),
            paths_ok(v@),
            pv == paths_v(v@),
            json::values_v(out@) == clean_wires(pv, i as int),
            json::all_within(json::values_v(out@), FAR_MAX as int),
        decreases v@.len() - i,
    {
        assert(steps_ok(v@[i as int]@));
        assert(pv[i as int] == path_v(v@[i as int]@));
        let s = space_out(&v[i]);
        assert(path_v(s@).len() == s@.len());
        let ghost o0 = json::values_v(out@);
        if s.len() >= 2 {
            let x = half_path_json(&s);
            let ghost xv = x@;
            out.push(x);
            assert(json::values_v(out@) =~= o0.push(xv));
        }
        i += 1;
    }
    far_list(out)
}

impl PinTable {
    fn resolve_path(&self, v: &Vec<Json>, ctx: &str, errors: &mut Vec<String>) -> (r: Vec<Step>)
        requires
            table_ok(self@),
            json::all_within(json::values_v(v@), POINT_MAX as int),
        ensures
            ({
                let p = found_path(self@, json::values_v(v@), ctx@, v@.len() as int);
                &&& path_v(r@) == p.pts
                &&& text::views(final(errors)@) == text::views(old(errors)@) + p.errors
            }),
            steps_ok(r@),
    {
        let ghost vv = json::values_v(v@);
        let ghost e0 = text::views(errors@);
        let mut r: Vec<Step> = Vec::new();
        let mut i: usize = 0;
        assert(path_v(r@) =~= found_path(self@, vv, ctx@, 0).pts);
        assert(text::views(errors@) =~= e0 + found_path(self@, vv, ctx@, 0).errors);
        while i < v.len()
            invariant
                i <= v@.len(),
                table_ok(self@),
                vv == json::values_v(v@),
                json::all_within(vv, POINT_MAX as int),
                path_v(r@) == found_path(self@, vv, ctx@, i as int).pts,
                text::views(errors@) == e0 + found_path(self@, vv, ctx@, i as int).errors,
                steps_ok(r@),
            decreases v@.len() - i,
        {
            assert(vv[i as int] == v@[i as int]@);
            assert(json::within(vv[i as int], POINT_MAX as int));
            let f = self.resolve(&v[i], ctx);
            let ghost r0 = path_v(r@);
            let p: Step = (f.x, f.y);
            r.push(p);
            assert(path_v(r@) =~= r0.push(step_v(p)));
            note(errors, f.error);
            assert(text::views(errors@) =~= e0 + found_path(self@, vv, ctx@, i + 1).errors);
            i += 1;
        }
        r
    }

    fn resolve_marks(&self, v: &Vec<Json>, errors: &mut Vec<String>) -> (r: Vec<Step>)
        requires
            table_ok(self@),
            json::all_within(json::values_v(v@), POINT_MAX as int),
        ensures
            ({
                let p = found_marks(self@, json::values_v(v@), v@.len() as int);
                &&& path_v(r@) == p.pts
                &&& text::views(final(errors)@) == text::views(old(errors)@) + p.errors
            }),
            steps_ok(r@),
    {
        let ghost vv = json::values_v(v@);
        let ghost e0 = text::views(errors@);
        let mut r: Vec<Step> = Vec::new();
        let mut i: usize = 0;
        assert(path_v(r@) =~= found_marks(self@, vv, 0).pts);
        assert(text::views(errors@) =~= e0 + found_marks(self@, vv, 0).errors);
        while i < v.len()
            invariant
                i <= v@.len(),
                table_ok(self@),
                vv == json::values_v(v@),
                json::all_within(vv, POINT_MAX as int),
                path_v(r@) == found_marks(self@, vv, i as int).pts,
                text::views(errors@) == e0 + found_marks(self@, vv, i as int).errors,
                steps_ok(r@),
            decreases v@.len() - i,
        {
            assert(vv[i as int] == v@[i as int]@);
            assert(json::within(vv[i as int], POINT_MAX as int));
            let ctx = Line::of("nc").add("[").count(i as u128).add("]").done();
            let f = self.resolve(&v[i], ctx.as_str());
            let ghost r0 = path_v(r@);
            let p: Step = (f.x, f.y);
            r.push(p);
            assert(path_v(r@) =~= r0.push(step_v(p)));
            note(errors, f.error);
            assert(text::views(errors@) =~= e0 + found_marks(self@, vv, i + 1).errors);
            i += 1;
        }
        r
    }

    fn resolve_wires(&self, v: &Vec<Json>, errors: &mut Vec<String>) -> (r: Vec<Vec<Step>>)
        requires
            table_ok(self@),
            json::all_within(json::values_v(v@), POINT_MAX as int),
        ensures
            ({
                let w = found_wires(self@, json::values_v(v@), v@.len() as int);
                &&& paths_v(r@) == w.wires
                &&& text::views(final(errors)@) == text::views(old(errors)@) + w.errors
            }),
            paths_ok(r@),
    {
        let ghost vv = json::values_v(v@);
        let ghost e0 = text::views(errors@);
        let mut r: Vec<Vec<Step>> = Vec::new();
        let mut i: usize = 0;
        assert(paths_v(r@) =~= found_wires(self@, vv, 0).wires);
        assert(text::views(errors@) =~= e0 + found_wires(self@, vv, 0).errors);
        while i < v.len()
            invariant
                i <= v@.len(),
                table_ok(self@),
                vv == json::values_v(v@),
                json::all_within(vv, POINT_MAX as int),
                paths_v(r@) == found_wires(self@, vv, i as int).wires,
                text::views(errors@) == e0 + found_wires(self@, vv, i as int).errors,
                paths_ok(r@),
            decreases v@.len() - i,
        {
            assert(vv[i as int] == v@[i as int]@);
            proof {
                assert(json::within(vv[i as int], POINT_MAX as int));
                json::lemma_items_within(vv[i as int], POINT_MAX as int);
            }
            let ghost r0 = paths_v(r@);
            let ghost e1 = text::views(errors@);
            let ctx = Line::of("wire ").count(i as u128).done();
            let short = match v[i].as_array() {
                Some(pts) => {
                    if pts.len() >= 2 {
                        let p = self.resolve_path(pts, ctx.as_str(), errors);
                        let ghost pv = path_v(p@);
                        r.push(p);
                        assert(paths_v(r@) =~= r0.push(pv));
                        false
                    } else {
                        true
                    }
                },
                None => true,
            };
            if short {
                let t = Line::of(ctx.as_str()).add(": needs at least 2 points").done();
                errors.push(t);
                assert(text::views(errors@) =~= e1.push(
                    wire_ctx(i as int) + ": needs at least 2 points"@,
                ));
            }
            assert(text::views(errors@) =~= e0 + found_wires(self@, vv, i + 1).errors);
            assert(paths_v(r@) =~= found_wires(self@, vv, i + 1).wires);
            i += 1;
        }
        r
    }
}

/// An item whose point has been resolved.
pub struct Item {
    pub m: Vec<(String, Json)>,
    pub wire: Option<Vec<Step>>,
    pub error: Option<String>,
}

impl Item {
    pub open spec fn view(&self) -> ItemV {
        ItemV {
            m: json::entries_v(self.m@),
            wire: match self.wire {
                Some(w) => Some(path_v(w@)),
                None => None,
            },
            error: match self.error {
                Some(e) => Some(e@),
                None => None,
            },
        }
    }

    pub open spec fn wf(&self) -> bool {
        &&& json::fields_within(json::entries_v(self.m@), FAR_MAX as int)
        &&& self.wire is Some ==> steps_ok(self.wire->0@)
    }
}

proof fn lemma_fields_mono(v: Seq<(Seq<char>, JsonV)>)
    requires
        json::fields_within(v, POINT_MAX as int),
    ensures
        json::fields_within(v, FAR_MAX as int),
{
    assert forall|i: int| 0 <= i < v.len() implies json::within(
        (#[trigger] v[i]).1,
        FAR_MAX as int,
    ) by {
        json::lemma_within_mono(v[i].1, POINT_MAX as int, FAR_MAX as int);
    }
}

fn stub_in(m: &Vec<(String, Json)>, key: &str) -> (r: i32)
    requires
        json::fields_ok(json::entries_v(m@)),
    ensures
        r == stub_of(json::entries_v(m@), key@),
{
    match entry(m, "stub") {
        Some(v) => match v.as_num() {
            Some(x) => to_i32(to_whole(x)),
            None => 0,
        },
        None => if same(key, "labels") {
            3
        } else if same(key, "power") {
            2
        } else {
            0
        },
    }
}

fn shift(x: i64, d: i32, stub: i32) -> (r: i64)
    requires
        -5_000_000_000_000_000 <= x <= 5_000_000_000_000_000,
        -1 <= d <= 1,
    ensures
        r == x + d * stub * 1_000_000,
        -7_500_000_000_000_000 <= r <= 7_500_000_000_000_000,
{
    let s: i64 = if d == 0 {
        0
    } else if d > 0 {
        stub as i64
    } else {
        -(stub as i64)
    };
    assert(s == d * stub) by (nonlinear_arith)
        requires
            d == 0 && s == 0 || d == 1 && s == stub || d == -1 && s == -stub,
    ;
    x + s * 1_000_000
}

impl PinTable {
    #[verifier::spinoff_prover]
    fn resolve_pin_item(&self, key: &str, ctx: &str, m: Vec<(String, Json)>, pin: &Json) -> (r: Item)
        requires
            table_ok(self@),
            json::fields_within(json::entries_v(m@), POINT_MAX as int),
            order_map::look(json::entries_v(m@), "pin"@) == Some(pin@),
            order_map::look(json::entries_v(m@), "at"@) is None,
            json::within(pin@, POINT_MAX as int),
        ensures
            r@ == found_item(self@, key@, ctx@, JsonV::Obj(json::entries_v(m@))),
            r.wf(),
    {
        let ghost mv = json::entries_v(m@);
        proof {
            json::lemma_fields_within_ok(mv, POINT_MAX as int);
            lemma_fields_mono(mv);
        }
        let mut m = m;
        let f = self.resolve(pin, ctx);
        let stub: i32 = stub_in(&m, key);
        let d: Dir = match f.dir {
            Some(d) => d,
            None => (0, 0),
        };
        let out = d.0 != 0 || d.1 != 0;
        assert(out == points_out(f.dir));
        let mut x: i64 = f.x;
        let mut y: i64 = f.y;
        let mut wire: Option<Vec<Step>> = None;
        if out && stub != 0 {
            x = shift(f.x, d.0, stub);
            y = shift(f.y, d.1, stub);
            let mut w: Vec<Step> = Vec::new();
            w.push((f.x, f.y));
            w.push((x, y));
            assert(path_v(w@) =~= seq![(f.x as int, f.y as int), (x as int, y as int)]);
            wire = Some(w);
        }
        put_far(&mut m, "at", pair_json(Json::Dec(x), Json::Dec(y)));
        let ghost m1 = json::entries_v(m@);
        if same(key, "labels") && out && entry(&m, "rot").is_none() {
            let turn: i64 = if d.0 == 1 && d.1 == 0 {
                0
            } else if d.0 == -1 && d.1 == 0 {
                180
            } else if d.0 == 0 && d.1 == -1 {
                90
            } else {
                270
            };
            put_far(&mut m, "rot", Json::Int(turn));
        }
        let r = Item { m, wire, error: f.error };
        let ghost want = found_item(self@, key@, ctx@, JsonV::Obj(mv));
        assert(r@.m == want.m);
        assert(r@.wire == want.wire);
        assert(r@.error == want.error);
        r
    }

    fn resolve_item(&self, key: &str, ctx: &str, it: &Json) -> (r: Item)
        requires
            table_ok(self@),
            json::within(it@, POINT_MAX as int),
        ensures
            r@ == found_item(self@, key@, ctx@, it@),
            r.wf(),
    {
        proof {
            json::lemma_within_ok(it@, POINT_MAX as int);
            json::lemma_items_within(it@, POINT_MAX as int);
            json::lemma_look_within(json::entries_of(it@), "at"@, POINT_MAX as int);
            json::lemma_look_within(json::entries_of(it@), "pin"@, POINT_MAX as int);
            lemma_fields_mono(json::entries_of(it@));
        }
        let mut m = object_of(it);
        let at = match entry(&m, "at") {
            Some(v) => Some(v.dup()),
            None => None,
        };
        match at {
            Some(v) => {
                let f = self.resolve(&v, ctx);
                put_far(&mut m, "at", pair_json(Json::Dec(f.x), Json::Dec(f.y)));
                Item { m, wire: None, error: f.error }
            },
            None => {
                let pin = match entry(&m, "pin") {
                    Some(v) => Some(v.dup()),
                    None => None,
                };
                match pin {
                    Some(v) => self.resolve_pin_item(key, ctx, m, &v),
                    None => Item { m, wire: None, error: None },
                }
            },
        }
    }

    fn resolve_items(
        &self,
        key: &str,
        v: &Vec<Json>,
        wires: &mut Vec<Vec<Step>>,
        errors: &mut Vec<String>,
    ) -> (r: Json)
        requires
            table_ok(self@),
            json::all_within(json::values_v(v@), POINT_MAX as int),
            paths_ok(old(wires)@),
        ensures
            ({
                let s = found_items(self@, key@, json::values_v(v@), v@.len() as int);
                &&& r@ == JsonV::Arr(s.items)
                &&& paths_v(final(wires)@) == paths_v(old(wires)@) + s.wires
                &&& text::views(final(errors)@) == text::views(old(errors)@) + s.errors
            }),
            paths_ok(final(wires)@),
            json::within(r@, FAR_MAX as int),
    {
        let ghost vv = json::values_v(v@);
        let ghost e0 = text::views(errors@);
        let ghost w0 = paths_v(wires@);
        let mut out: Vec<Json> = Vec::new();
        let mut i: usize = 0;
        assert(json::values_v(out@) =~= found_items(self@, key@, vv, 0).items);
        assert(e0 =~= e0 + found_items(self@, key@, vv, 0).errors);
        assert(w0 =~= w0 + found_items(self@, key@, vv, 0).wires);
        while i < v.len()
            invariant
                i <= v@.len(),
                table_ok(self@),
                vv == json::values_v(v@),
                json::all_within(vv, POINT_MAX as int),
                json::values_v(out@) == found_items(self@, key@, vv, i as int).items,
                json::all_within(json::values_v(out@), FAR_MAX as int),
                text::views(errors@) == e0 + found_items(self@, key@, vv, i as int).errors,
                paths_v(wires@) == w0 + found_items(self@, key@, vv, i as int).wires,
                paths_ok(wires@),
            decreases v@.len() - i,
        {
            assert(vv[i as int] == v@[i as int]@);
            assert(json::within(vv[i as int], POINT_MAX as int));
            let ctx = Line::of(key).add("[").count(i as u128).add("]").done();
            let t = self.resolve_item(key, ctx.as_str(), &v[i]);
            let ghost tv = t@;
            let ghost o0 = json::values_v(out@);
            let ghost e1 = text::views(errors@);
            let ghost w1 = paths_v(wires@);
            assert(tv == found_item(self@, key@, item_ctx(key@, i as int), vv[i as int]));
            let x = far_object(t.m);
            let ghost xv = x@;
            out.push(x);
            assert(json::values_v(out@) =~= o0.push(xv));
            match t.wire {
                Some(w) => {
                    let ghost wv = path_v(w@);
                    wires.push(w);
                    assert(paths_v(wires@) =~= w1.push(wv));
                },
                None => {},
            }
            note(errors, t.error);
            assert(text::views(errors@) =~= e0 + found_items(self@, key@, vv, i + 1).errors);
            assert(paths_v(wires@) =~= w0 + found_items(self@, key@, vv, i + 1).wires);
            i += 1;
        }
        far_list(out)
    }
}

fn half_item(it: &Json) -> (r: Json)
    requires
        json::within(it@, FAR_MAX as int),
    ensures
        r@ == on_half_grid(it@),
        json::within(r@, FAR_MAX as int),
{
    proof {
        json::lemma_within_ok(it@, FAR_MAX as int);
        json::lemma_items_within(it@, FAR_MAX as int);
        json::lemma_look_within(json::entries_of(it@), "at"@, FAR_MAX as int);
    }
    let mut m = object_of(it);
    let at = match entry(&m, "at") {
        Some(v) => Some(v.dup()),
        None => None,
    };
    match at {
        Some(v) => {
            proof {
                json::lemma_items_within(v@, FAR_MAX as int);
                json::lemma_within_ok(v@, FAR_MAX as int);
            }
            let a: Vec<Json> = match v.as_array() {
                Some(a) => dup_values(a),
                None => Vec::new(),
            };
            let ghost av = json::values_v(a@);
            assert(av =~= json::items_of(v@));
            proof {
                assert forall|k: int| 0 <= k < av.len() implies json::ok(#[trigger] av[k]) by {
                    json::lemma_within_ok(av[k], FAR_MAX as int);
                }
                if av.len() > 0 {
                    assert(json::within(av[0], FAR_MAX as int));
                }
                if av.len() > 1 {
                    assert(json::within(av[1], FAR_MAX as int));
                }
            }
            let x: i64 = number_item(&a, 0);
            let y: i64 = number_item(&a, 1);
            put_far(&mut m, "at", half_pt((x, y)));
            far_object(m)
        },
        None => far_object(m),
    }
}

fn put_half_list(d: &mut Vec<(String, Json)>, k: &str)
    requires
        json::fields_within(json::entries_v(old(d)@), FAR_MAX as int),
    ensures
        json::entries_v(final(d)@) == list_on_half_grid(json::entries_v(old(d)@), k@),
        json::fields_within(json::entries_v(final(d)@), FAR_MAX as int),
{
    let v = list_of(d, k);
    let ghost vv = json::values_v(v@);
    let ghost want = Seq::new(vv.len(), |i: int| on_half_grid(vv[i]));
    proof {
        json::lemma_look_within(json::entries_v(d@), k@, FAR_MAX as int);
        match order_map::look(json::entries_v(d@), k@) {
            Some(x) => json::lemma_items_within(x, FAR_MAX as int),
            None => {},
        }
        assert(json::all_within(vv, FAR_MAX as int));
    }
    let mut out: Vec<Json> = Vec::new();
    let mut i: usize = 0;
    while i < v.len()
        invariant
            i <= v@.len(),
            vv == json::values_v(v@),
            json::all_within(vv, FAR_MAX as int),
            want == Seq::new(vv.len(), |i: int| on_half_grid(vv[i])),
            out@.len() == i,
            forall|k: int|
                0 <= k < i ==> (#[trigger] out@[k])@ == want[k] && json::within(
                    out@[k]@,
                    FAR_MAX as int,
                ),
        decreases v@.len() - i,
    {
        assert(vv[i as int] == v@[i as int]@);
        assert(json::within(vv[i as int], FAR_MAX as int));
        let e = half_item(&v[i]);
        assert(e@ == want[i as int]);
        out.push(e);
        i += 1;
    }
    assert(json::values_v(out@) =~= want);
    let x = far_list(out);
    put_far(d, k, x);
}

pub(crate) fn list_in(d: &Vec<(String, Json)>, k: &str) -> (r: Vec<Json>)
    requires
        json::fields_within(json::entries_v(d@), POINT_MAX as int),
    ensures
        json::values_v(r@) == model_json::list_at(json::entries_v(d@), k@),
        json::all_within(json::values_v(r@), POINT_MAX as int),
        r@.len() == model_json::list_at(json::entries_v(d@), k@).len(),
{
    let r = list_of(d, k);
    proof {
        json::lemma_look_within(json::entries_v(d@), k@, POINT_MAX as int);
        match order_map::look(json::entries_v(d@), k@) {
            Some(x) => json::lemma_items_within(x, POINT_MAX as int),
            None => {},
        }
        assert(json::values_v(r@).len() == r@.len());
    }
    r
}

pub(crate) fn resolve_with(d: &mut Vec<(String, Json)>, t: &PinTable) -> (errors: Vec<String>)
    requires
        json::fields_within(json::entries_v(old(d)@), POINT_MAX as int),
        table_ok(t@),
    ensures
        json::entries_v(final(d)@) == resolved_refs(json::entries_v(old(d)@), t@).d,
        text::views(errors@) == resolved_refs(json::entries_v(old(d)@), t@).errors,
        json::fields_within(json::entries_v(final(d)@), FAR_MAX as int),
{
    let ghost d0 = json::entries_v(d@);
    proof {
        lemma_fields_mono(d0);
    }
    let old_wires = list_in(d, "wires");
    let labels = list_in(d, "labels");
    let power = list_in(d, "power");
    let texts = list_in(d, "texts");
    let old_nc = list_in(d, "nc");
    let mut errors: Vec<String> = Vec::new();
    let ghost e0 = text::views(errors@);
    assert(e0 =~= Seq::empty());
    let mut wires = t.resolve_wires(&old_wires, &mut errors);
    let l = t.resolve_items("labels", &labels, &mut wires, &mut errors);
    put_far(d, "labels", l);
    let p = t.resolve_items("power", &power, &mut wires, &mut errors);
    put_far(d, "power", p);
    let x = t.resolve_items("texts", &texts, &mut wires, &mut errors);
    put_far(d, "texts", x);
    let nc = t.resolve_marks(&old_nc, &mut errors);
    put_half_list(d, "parts");
    put_half_list(d, "power");
    put_half_list(d, "labels");
    let ghost want = resolved_refs(d0, t@);
    assert(text::views(errors@) =~= want.errors);
    assert(paths_v(wires@).len() == wires@.len());
    put_far(d, "wires", clean_wire_list(&wires));
    put_far(d, "nc", half_path_json(&nc));
    errors
}

/// Replaces pin references in wires, labels, power symbols, texts and markers by coordinates on the
/// half grid. Pins are found through the symbols of the index, and through those that the base
/// design holds.
pub fn resolve_pin_refs(
    d: &mut Json,
    index: &SymbolIndex,
    own: &OrderMap<Arc<SymbolInfo>>,
) -> (errors: Vec<String>)
    requires
        old(d)@ is Obj,
        json::within(old(d)@, POINT_MAX as int),
        index.wf(),
        compile::infos_ok(*own),
    ensures
        ({
            let o = json::entries_of(old(d)@);
            let r = resolved_refs(o, design_table(o, *index, *own));
            &&& final(d)@ == JsonV::Obj(r.d)
            &&& text::views(errors@) == r.errors
        }),
        json::ok(final(d)@),
{
    proof {
        json::lemma_within_ok(d@, POINT_MAX as int);
        json::lemma_items_within(d@, POINT_MAX as int);
    }
    let mut o = object_of(d);
    let t = pin_lookup_table(&list_in(&o, "parts"), index, own);
    let errors = resolve_with(&mut o, &t);
    let r = far_object(o);
    proof {
        json::lemma_within_ok(r@, FAR_MAX as int);
    }
    *d = r;
    errors
}

#[verifier::spinoff_prover]
#[verifier::rlimit(40)]
proof fn lemma_half_within(m: int)
    requires
        -POINT_MAX <= m <= POINT_MAX,
    ensures
        json::within(half_json(halves(m)), POINT_MAX as int),
{
}

/// Moving an item to the half grid keeps it within bounds.
pub proof fn lemma_half_item_within(it: JsonV)
    requires
        json::within(it, POINT_MAX as int),
    ensures
        json::within(on_half_grid(it), POINT_MAX as int),
{
    let b = POINT_MAX as int;
    let m = json::entries_of(it);
    json::lemma_items_within(it, b);
    json::lemma_look_within(m, "at"@, b);
    match order_map::look(m, "at"@) {
        Some(at) => {
            json::lemma_items_within(at, b);
            let v = json::items_of(at);
            let x = model_json::num_item(v, 0);
            let y = model_json::num_item(v, 1);
            if v.len() > 0 {
                assert(json::within(v[0], b));
            }
            if v.len() > 1 {
                assert(json::within(v[1], b));
            }
            lemma_half_within(x);
            lemma_half_within(y);
            let p = seq![half_json(halves(x)), half_json(halves(y))];
            json::lemma_within_arr(p, b);
            json::lemma_put_within(m, "at"@, JsonV::Arr(p), b);
            json::lemma_within_obj(order_map::put(m, "at"@, JsonV::Arr(p)), b);
        },
        None => {
            json::lemma_within_obj(m, b);
        },
    }
}

/// Resolving references moves parts to the half grid and does nothing else to them.
pub proof fn resolving_keeps_parts(d: Seq<(Seq<char>, JsonV)>, t: TableV)
    ensures
        model_json::list_at(resolved_refs(d, t).d, "parts"@) == Seq::new(
            model_json::list_at(d, "parts"@).len(),
            |i: int| on_half_grid(model_json::list_at(d, "parts"@)[i]),
        ),
{
    reveal_strlit("parts");
    reveal_strlit("labels");
    reveal_strlit("power");
    reveal_strlit("texts");
    reveal_strlit("wires");
    reveal_strlit("nc");
    assert("parts"@[0] == 'p' && "parts"@[1] == 'a');
    assert("power"@[1] == 'o' && "texts"@[0] == 't' && "wires"@[0] == 'w');
    assert("parts"@.len() == 5 && "labels"@.len() == 6 && "nc"@.len() == 2);
    let w0 = model_json::list_at(d, "wires"@);
    let w = found_wires(t, w0, w0.len() as int);
    let l0 = model_json::list_at(d, "labels"@);
    let l = found_items(t, "labels"@, l0, l0.len() as int);
    let d1 = order_map::put(d, "labels"@, JsonV::Arr(l.items));
    let p0 = model_json::list_at(d, "power"@);
    let p = found_items(t, "power"@, p0, p0.len() as int);
    let d2 = order_map::put(d1, "power"@, JsonV::Arr(p.items));
    let x0 = model_json::list_at(d, "texts"@);
    let x = found_items(t, "texts"@, x0, x0.len() as int);
    let d3 = order_map::put(d2, "texts"@, JsonV::Arr(x.items));
    let n0 = model_json::list_at(d, "nc"@);
    let n = found_marks(t, n0, n0.len() as int);
    let wires = w.wires + l.wires + p.wires + x.wires;
    let e1 = list_on_half_grid(d3, "parts"@);
    let e2 = list_on_half_grid(e1, "power"@);
    let d4 = list_on_half_grid(e2, "labels"@);
    let cw = JsonV::Arr(clean_wires(wires, wires.len() as int));
    let d5 = order_map::put(d4, "wires"@, cw);
    order_map::put_then_look(d, "labels"@, JsonV::Arr(l.items));
    order_map::put_then_look(d1, "power"@, JsonV::Arr(p.items));
    order_map::put_then_look(d2, "texts"@, JsonV::Arr(x.items));
    let v = model_json::list_at(d3, "parts"@);
    assert(v == model_json::list_at(d, "parts"@));
    let hv = Seq::new(v.len(), |i: int| on_half_grid(v[i]));
    order_map::put_then_look(d3, "parts"@, JsonV::Arr(hv));
    let pv = model_json::list_at(e1, "power"@);
    order_map::put_then_look(
        e1,
        "power"@,
        JsonV::Arr(Seq::new(pv.len(), |i: int| on_half_grid(pv[i]))),
    );
    let lv = model_json::list_at(e2, "labels"@);
    order_map::put_then_look(
        e2,
        "labels"@,
        JsonV::Arr(Seq::new(lv.len(), |i: int| on_half_grid(lv[i]))),
    );
    order_map::put_then_look(d4, "wires"@, cw);
    order_map::put_then_look(d5, "nc"@, half_path(n.pts));
    assert(model_json::list_at(resolved_refs(d, t).d, "parts"@) =~= hv);
}

} // verus!
