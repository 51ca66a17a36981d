//! Floorplans: coarse cells for components, rails and ports for nets, and what a drawn plan is
//! judged by.
use crate::emit;
use crate::emit::SymbolGeometry;
use crate::flex::cut_wide;
use crate::geom;
use crate::geom::{max_i, Pt};
use crate::kernel;
use crate::kernel::{find_kind, Component, Design, PinKind, PinTarget, Provider};
use crate::names;
use crate::names::{add_distinct, has_name};
use crate::order_map;
use crate::orient;
use crate::orient::cut_off;
use crate::reconcile;
use crate::reconcile::{find_named, seek_name};
use crate::text;
use crate::text::{ascii_upper, same, starts_with};
use crate::tree;
use vstd::prelude::*;

verus! {

/// Distance of the plan from the edges of the sheet.
pub const MARGIN: i64 = 1_270_000;

/// The direction signals flow in.
#[derive(Debug, Clone, Copy, PartialEq, Eq, Structural)]
pub enum Flow {
    Lr,
    Tb,
}

/// Where a rail runs.
#[derive(Debug, Clone, Copy, PartialEq, Eq, Structural)]
pub enum Band {
    Top,
    Bottom,
}

/// The edge that a port leaves toward.
#[derive(Debug, Clone, Copy, PartialEq, Eq, Structural)]
pub enum Side {
    Left,
    Right,
    Top,
    Bottom,
}

/// The way a part points, from its first pin to its second.
#[derive(Debug, Clone, Copy, PartialEq, Eq, Structural)]
pub enum Orient {
    Up,
    Down,
    Left,
    Right,
}

/// A coarse place: columns grow to the right, rows downward.
#[derive(Debug, Clone, Copy, PartialEq, Eq, Structural)]
pub struct Cell {
    pub col: i32,
    pub row: i32,
    pub orient: Orient,
}

/// A floorplan without coordinates.
#[derive(Debug, Clone)]
pub struct LayoutIr {
    pub flow: Flow,
    /// Nets that are drawn as rails.
    pub rails: Vec<(String, Band)>,
    /// Components with a place.
    pub place: Vec<(String, Cell)>,
    /// Nets that leave the sheet.
    pub ports: Vec<(String, Side)>,
    /// Components that are flipped.
    pub mirror: Vec<String>,
}

// ---------------------------------------------------------------- a plain plan
/// Whether a net is called like a ground.
pub open spec fn ground_name(net: Seq<char>) -> bool {
    let u = text::ascii_uppercase(net);
    u == "GND"@ || u == "GNDD"@ || u == "AGND"@ || u == "DGND"@ || u == "VSS"@ || text::starts(
        u,
        "GND"@,
    )
}

/// Whether a net is called like a ground.
pub fn is_ground(net: &str) -> (r: bool)
    ensures
        r == ground_name(net@),
{
    let u = ascii_upper(net);
    let s = u.as_str();
    same(s, "GND") || same(s, "GNDD") || same(s, "AGND") || same(s, "DGND") || same(s, "VSS")
        || starts_with(s, "GND")
}

/// The first place whose name does not come before `k`.
pub open spec fn rail_place(m: Seq<(Seq<char>, Band)>, k: Seq<char>, i: int) -> int
    decreases m.len() - i,
{
    if i < 0 || i >= m.len() || !text::before(m[i].0, k) {
        i
    } else {
        rail_place(m, k, i + 1)
    }
}

/// The rails with a net more, names in ascending order, each once.
pub open spec fn with_rail(m: Seq<(Seq<char>, Band)>, k: Seq<char>, b: Band) -> Seq<
    (Seq<char>, Band),
> {
    let i = order_map::seek(m, k, 0);
    if i < m.len() {
        m.update(i, (k, b))
    } else {
        m.insert(rail_place(m, k, 0), (k, b))
    }
}

/// The rails of the first `n` nets: power nets, grounds at the bottom.
pub open spec fn rails_of(nets: Seq<(String, bool)>, n: int) -> Seq<(Seq<char>, Band)>
    decreases n,
{
    if n <= 0 {
        Seq::empty()
    } else if nets[n - 1].1 {
        with_rail(
            rails_of(nets, n - 1),
            nets[n - 1].0@,
            if ground_name(nets[n - 1].0@) {
                Band::Bottom
            } else {
                Band::Top
            },
        )
    } else {
        rails_of(nets, n - 1)
    }
}

fn add_rail(v: &mut Vec<(String, Band)>, k: &str, b: Band)
    ensures
        reconcile::named(final(v)@) == with_rail(reconcile::named(old(v)@), k@, b),
{
    let ghost m = reconcile::named(v@);
    let i = seek_name(v, k);
    if i < v.len() {
        v.set(i, (k.to_owned(), b));
        assert(reconcile::named(v@) =~= m.update(i as int, (k@, b)));
    } else {
        let mut j: usize = 0;
        while j < v.len() && text::is_before(v[j].0.as_str(), k)
            invariant
                j <= v@.len(),
                m == reconcile::named(v@),
                rail_place(m, k@, 0) == rail_place(m, k@, j as int),
            decreases v@.len() - j,
        {
            assert(m[j as int].0 == v@[j as int].0@);
            j += 1;
        }
        if j < v.len() {
            assert(m[j as int].0 == v@[j as int].0@);
        }
        v.insert(j, (k.to_owned(), b));
        assert(reconcile::named(v@) =~= m.insert(j as int, (k@, b)));
    }
}

/// A plan for a circuit that nobody has planned: its power nets as rails, grounds at the bottom.
pub fn baseline_ir(design: &Design) -> (r: LayoutIr)
    ensures
        r.flow == Flow::Lr,
        reconcile::named(r.rails@) == rails_of(design.nets@, design.nets@.len() as int),
        r.place@.len() == 0,
        r.ports@.len() == 0,
        r.mirror@.len() == 0,
{
    let mut rails: Vec<(String, Band)> = Vec::new();
    let mut i: usize = 0;
    assert(reconcile::named(rails@) =~= Seq::empty());
    while i < design.nets.len()
        invariant
            i <= design.nets@.len(),
            reconcile::named(rails@) == rails_of(design.nets@, i as int),
        decreases design.nets@.len() - i,
    {
        if design.nets[i].1 {
            let b = if is_ground(design.nets[i].0.as_str()) { Band::Bottom } else { Band::Top };
            add_rail(&mut rails, design.nets[i].0.as_str(), b);
        }
        i += 1;
    }
    LayoutIr { flow: Flow::Lr, rails, place: Vec::new(), ports: Vec::new(), mirror: Vec::new() }
}

// ---------------------------------------------------------------- pins
/// A pin of a placed component: its number, its name, its net.
#[derive(Debug)]
pub struct ItemPin {
    pub number: String,
    pub name: String,
    pub net: Option<String>,
}

#[verifier::ext_equal]
pub struct ItemPinV {
    pub number: Seq<char>,
    pub name: Seq<char>,
    pub net: Option<Seq<char>>,
}

impl ItemPin {
    pub open spec fn view(&self) -> ItemPinV {
        ItemPinV { number: self.number@, name: self.name@, net: tree::text_v(self.net) }
    }
}

pub open spec fn item_pins_v(v: Seq<ItemPin>) -> Seq<ItemPinV> {
    Seq::new(v.len(), |i: int| v[i]@)
}

/// What a component connects a pin of its symbol to: found by number, else by name.
pub open spec fn target_of(c: Component, p: emit::PinGeom) -> Option<Seq<char>> {
    let m = reconcile::named(c.pins@);
    let t = match order_map::look(m, p.number@) {
        Some(t) => Some(t),
        None => order_map::look(m, p.name@),
    };
    match t {
        Some(x) => kernel::target_v(x),
        None => None,
    }
}

pub open spec fn resolved_pins(c: Component, g: SymbolGeometry) -> Seq<ItemPinV> {
    Seq::new(
        g.pins@.len(),
        |i: int|
            ItemPinV {
                number: g.pins@[i].number@,
                name: g.pins@[i].name@,
                net: target_of(c, g.pins@[i]),
            },
    )
}

/// The pins of a symbol with the nets that a component connects them to.
pub fn resolve_pins(c: &Component, g: &SymbolGeometry) -> (r: Vec<ItemPin>)
    ensures
        item_pins_v(r@) == resolved_pins(*c, *g),
{
    let mut r: Vec<ItemPin> = Vec::new();
    let ghost want = resolved_pins(*c, *g);
    let mut i: usize = 0;
    while i < g.pins.len()
        invariant
            i <= g.pins@.len(),
            r@.len() == i,
            want == resolved_pins(*c, *g),
            forall|k: int| 0 <= k < i ==> (#[trigger] r@[k])@ == want[k],
        decreases g.pins@.len() - i,
    {
        let p = &g.pins[i];
        let t = match find_named(&c.pins, p.number.as_str()) {
            Some(t) => Some(t),
            None => find_named(&c.pins, p.name.as_str()),
        };
        let net = match t {
            Some(PinTarget::Net(n)) => Some(n.clone()),
            _ => None,
        };
        r.push(ItemPin { number: p.number.clone(), name: p.name.clone(), net });
        i += 1;
    }
    assert(item_pins_v(r@) =~= want);
    r
}

/// A component of a plan.
#[derive(Debug)]
pub struct Item {
    pub refdes: String,
    pub part: String,
    pub pins: Vec<ItemPin>,
    pub at: Pt,
    pub angle: i32,
}

/// Nets that are driven and nets that must be driven.
#[verifier::ext_equal]
pub struct DriveV {
    pub driven: Seq<Seq<char>>,
    pub inputs: Seq<Seq<char>>,
}

pub open spec fn drive_step(s: DriveV, kind: Option<PinKind>, net: Option<Seq<char>>) -> DriveV {
    match (kind, net) {
        (Some(PinKind::PowerOutput), Some(n)) => DriveV {
            driven: names::set_add(s.driven, n),
            ..s
        },
        (Some(PinKind::PowerInput), Some(n)) => DriveV {
            inputs: names::set_add(s.inputs, n),
            ..s
        },
        _ => s,
    }
}

pub open spec fn drive_pins(s: DriveV, m: Seq<kernel::PinMeta>, v: Seq<ItemPin>, n: int) -> DriveV
    decreases n,
{
    if n <= 0 {
        s
    } else {
        drive_step(
            drive_pins(s, m, v, n - 1),
            kernel::kind_of(m, v[n - 1].number@),
            tree::text_v(v[n - 1].net),
        )
    }
}

pub open spec fn drive_items(p: Provider, v: Seq<Item>, n: int) -> DriveV
    decreases n,
{
    if n <= 0 {
        DriveV { driven: Seq::empty(), inputs: Seq::empty() }
    } else {
        let s = drive_items(p, v, n - 1);
        match p.found(v[n - 1].part@) {
            Some(m) => drive_pins(s, m.pins@, v[n - 1].pins@, v[n - 1].pins@.len() as int),
            None => s,
        }
    }
}

pub open spec fn with_all_rails(s: Seq<Seq<char>>, v: Seq<(String, Band)>, n: int) -> Seq<Seq<char>>
    decreases n,
{
    if n <= 0 {
        s
    } else {
        names::set_add(with_all_rails(s, v, n - 1), v[n - 1].0@)
    }
}

/// The nets that need a flag: those of power inputs and the rails, but for those that a pin drives.
pub open spec fn flag_nets(p: Provider, items: Seq<Item>, rails: Seq<(String, Band)>) -> Seq<Seq<char>> {
    let s = drive_items(p, items, items.len() as int);
    let v = with_all_rails(s.inputs, rails, rails.len() as int);
    crate::decorate::left_out(v, s.driven, v.len() as int)
}

/// The nets that need a flag: those of power inputs and the rails, but for those that a pin drives.
pub fn compute_needs_flag(provider: &Provider, items: &Vec<Item>, ir: &LayoutIr) -> (r: Vec<String>)
    ensures
        text::views(r@) == flag_nets(*provider, items@, ir.rails@),
{
    let mut driven: Vec<String> = Vec::new();
    let mut inputs: Vec<String> = Vec::new();
    assert(text::views(driven@) =~= Seq::empty());
    assert(text::views(inputs@) =~= Seq::empty());
    let mut i: usize = 0;
    while i < items.len()
        invariant
            i <= items@.len(),
            (DriveV { driven: text::views(driven@), inputs: text::views(inputs@) })
                == drive_items(*provider, items@, i as int),
        decreases items@.len() - i,
    {
        let ghost s = DriveV { driven: text::views(driven@), inputs: text::views(inputs@) };
        if let Some(m) = provider.symbol(items[i].part.as_str()) {
            let pins = &items[i].pins;
            let mut k: usize = 0;
            while k < pins.len()
                invariant
                    k <= pins@.len(),
                    (DriveV { driven: text::views(driven@), inputs: text::views(inputs@) })
                        == drive_pins(s, m.pins@, pins@, k as int),
                decreases pins@.len() - k,
            {
                if let Some(n) = &pins[k].net {
                    match find_kind(&m.pins, pins[k].number.as_str()) {
                        Some(PinKind::PowerOutput) => add_distinct(&mut driven, n.clone()),
                        Some(PinKind::PowerInput) => add_distinct(&mut inputs, n.clone()),
                        _ => {},
                    }
                }
                k += 1;
            }
        }
        i += 1;
    }
    let ghost base = text::views(inputs@);
    i = 0;
    while i < ir.rails.len()
        invariant
            i <= ir.rails@.len(),
            text::views(inputs@) == with_all_rails(base, ir.rails@, i as int),
        decreases ir.rails@.len() - i,
    {
        add_distinct(&mut inputs, ir.rails[i].0.clone());
        i += 1;
    }
    let ghost vv = text::views(inputs@);
    let ghost dv = text::views(driven@);
    let mut r: Vec<String> = Vec::new();
    i = 0;
    assert(text::views(r@) =~= crate::decorate::left_out(vv, dv, 0));
    while i < inputs.len()
        invariant
            i <= inputs@.len(),
            vv == text::views(inputs@),
            dv == text::views(driven@),
            text::views(r@) == crate::decorate::left_out(vv, dv, i as int),
        decreases inputs@.len() - i,
    {
        assert(vv[i as int] == inputs@[i as int]@);
        if !has_name(&driven, inputs[i].as_str()) {
            let ghost r0 = text::views(r@);
            r.push(inputs[i].clone());
            assert(text::views(r@) =~= r0.push(vv[i as int]));
        }
        i += 1;
    }
    assert(vv.len() == inputs@.len());
    r
}

// ---------------------------------------------------------------- cells
/// The rightmost column among the first `n` places; -1 where there is none.
pub open spec fn last_column(v: Seq<(String, Cell)>, n: int) -> int
    decreases n,
{
    if n <= 0 {
        -1
    } else if n == 1 {
        v[0].1.col as int
    } else {
        geom::hi(last_column(v, n - 1), v[n - 1].1.col as int)
    }
}

/// How many of the first `n` items have no place.
pub open spec fn unplaced(items: Seq<Item>, place: Seq<(String, Cell)>, n: int) -> int
    decreases n,
{
    if n <= 0 {
        0
    } else {
        unplaced(items, place, n - 1) + if order_map::look(
            reconcile::named(place),
            items[n - 1].refdes@,
        ) is Some {
            0int
        } else {
            1
        }
    }
}

/// The cell of an item: its place, or the next spare column on the right.
pub open spec fn cell_of(items: Seq<Item>, place: Seq<(String, Cell)>, i: int) -> Cell {
    match order_map::look(reconcile::named(place), items[i].refdes@) {
        Some(c) => c,
        None => Cell {
            col: (last_column(place, place.len() as int) + 1 + unplaced(items, place, i)) as i32,
            row: 0,
            orient: Orient::Down,
        },
    }
}

proof fn lemma_unplaced(items: Seq<Item>, place: Seq<(String, Cell)>, n: int)
    requires
        0 <= n,
    ensures
        0 <= unplaced(items, place, n) <= n,
    decreases n,
{
    if n > 0 {
        lemma_unplaced(items, place, n - 1);
    }
}

/// The cell of each item: its place, or a spare column on the right.
pub fn assign_cells(items: &Vec<Item>, ir: &LayoutIr) -> (r: Vec<Cell>)
    requires
        last_column(ir.place@, ir.place@.len() as int) + 1 + items@.len() <= i32::MAX,
    ensures
        r@.len() == items@.len(),
        forall|i: int|
            0 <= i < items@.len() ==> #[trigger] r@[i] == cell_of(items@, ir.place@, i),
{
    let mut last: i64 = -1;
    let mut i: usize = 0;
    while i < ir.place.len()
        invariant
            i <= ir.place@.len(),
            i32::MIN <= last <= i32::MAX,
            last == last_column(ir.place@, i as int),
        decreases ir.place@.len() - i,
    {
        let c = ir.place[i].1.col as i64;
        last = if i == 0 { c } else { max_i(last, c) };
        i += 1;
    }
    let mut r: Vec<Cell> = Vec::new();
    let mut spare: i64 = last + 1;
    i = 0;
    while i < items.len()
        invariant
            i <= items@.len(),
            r@.len() == i,
            i32::MIN <= last <= i32::MAX,
            last == last_column(ir.place@, ir.place@.len() as int),
            last + 1 + items@.len() <= i32::MAX,
            spare == last + 1 + unplaced(items@, ir.place@, i as int),
            0 <= unplaced(items@, ir.place@, i as int) <= i,
            forall|k: int|
                0 <= k < i ==> #[trigger] r@[k] == cell_of(items@, ir.place@, k),
        decreases items@.len() - i,
    {
        proof {
            lemma_unplaced(items@, ir.place@, i + 1);
        }
        match find_named(&ir.place, items[i].refdes.as_str()) {
            Some(c) => {
                r.push(*c);
            },
            None => {
                r.push(Cell { col: spare as i32, row: 0, orient: Orient::Down });
                spare += 1;
            },
        }
        i += 1;
    }
    r
}

/// The four cells beside a cell.
pub fn nudges(c: Cell) -> (r: Vec<Cell>)
    requires
        i32::MIN < c.col < i32::MAX,
        i32::MIN < c.row < i32::MAX,
    ensures
        r@ == seq![
            (Cell { col: (c.col - 1) as i32, ..c }),
            (Cell { col: (c.col + 1) as i32, ..c }),
            (Cell { row: (c.row - 1) as i32, ..c }),
            (Cell { row: (c.row + 1) as i32, ..c }),
        ],
{
    let mut r: Vec<Cell> = Vec::new();
    r.push(Cell { col: c.col - 1, ..c });
    r.push(Cell { col: c.col + 1, ..c });
    r.push(Cell { row: c.row - 1, ..c });
    r.push(Cell { row: c.row + 1, ..c });
    assert(r@ =~= seq![
        (Cell { col: (c.col - 1) as i32, ..c }),
        (Cell { col: (c.col + 1) as i32, ..c }),
        (Cell { row: (c.row - 1) as i32, ..c }),
        (Cell { row: (c.row + 1) as i32, ..c }),
    ]);
    r
}

/// Where the edge of the first `n` tracks is.
pub open spec fn track_edge(v: Seq<(i32, i64)>, gap: int, n: int) -> i64
    decreases n,
{
    if n <= 0 {
        0
    } else {
        orient::cut(track_edge(v, gap, n - 1) + orient::cut(v[n - 1].1 as int) + gap)
    }
}

/// The middle of a track: half its size behind the edge of those before.
pub open spec fn track_centre(v: Seq<(i32, i64)>, gap: int, i: int) -> i64 {
    orient::cut(track_edge(v, gap, i) + orient::cut(v[i].1 as int) / 2)
}

/// The middles of tracks that lie side by side with a gap between them. An index that is skipped
/// takes no room.
pub fn track_centres(v: &Vec<(i32, i64)>, gap: i64) -> (r: Vec<(i32, i64)>)
    ensures
        r@.len() == v@.len(),
        forall|i: int|
            0 <= i < v@.len() ==> (#[trigger] r@[i]).0 == v@[i].0 && r@[i].1 == track_centre(
                v@,
                gap as int,
                i,
            ),
{
    let mut r: Vec<(i32, i64)> = Vec::new();
    let mut edge: i64 = 0;
    let mut i: usize = 0;
    while i < v.len()
        invariant
            i <= v@.len(),
            r@.len() == i,
            orient::fits(edge as int),
            edge == track_edge(v@, gap as int, i as int),
            forall|k: int|
                0 <= k < i ==> (#[trigger] r@[k]).0 == v@[k].0 && r@[k].1 == track_centre(
                    v@,
                    gap as int,
                    k,
                ),
        decreases v@.len() - i,
    {
        let size = cut_off(v[i].1);
        r.push((v[i].0, cut_wide(edge as i128 + emit::half(size) as i128)));
        edge = cut_wide(edge as i128 + size as i128 + gap as i128);
        i += 1;
    }
    r
}

// ---------------------------------------------------------------- orientation
/// The position of a pin by its number, or the number of pins.
pub open spec fn pin_numbered(v: Seq<emit::PinGeom>, n: Seq<char>, i: int) -> int
    decreases v.len() - i,
{
    if i < 0 || i >= v.len() || v[i].number@ == n {
        i
    } else {
        pin_numbered(v, n, i + 1)
    }
}

/// The first and the second pin of a symbol with two pins: those numbered so, else as they stand.
pub open spec fn ends_of(g: SymbolGeometry) -> (Pt, Pt) {
    let i = pin_numbered(g.pins@, "1"@, 0);
    let j = pin_numbered(g.pins@, "2"@, 0);
    if i < g.pins@.len() && j < g.pins@.len() {
        (g.pins@[i].at, g.pins@[j].at)
    } else {
        (g.pins@[0].at, g.pins@[1].at)
    }
}

/// The way a step of a symbol points on the sheet when the symbol is turned: along its longer
/// part, level where both are as long.
pub open spec fn points(dx: int, dy: int, angle: int) -> Orient {
    let (sx, sy) = if angle == 90 {
        (-dy, -dx)
    } else if angle == 180 {
        (-dx, dy)
    } else if angle == 270 {
        (dy, dx)
    } else {
        (dx, -dy)
    };
    if geom::mag(sx) >= geom::mag(sy) {
        if sx >= 0 {
            Orient::Right
        } else {
            Orient::Left
        }
    } else if sy >= 0 {
        Orient::Down
    } else {
        Orient::Up
    }
}

/// The first quarter turn from `angle` on that makes a step point as wanted; none for 0.
pub open spec fn turn_for(dx: int, dy: int, o: Orient) -> i32 {
    if points(dx, dy, 0) == o {
        0
    } else if points(dx, dy, 90) == o {
        90
    } else if points(dx, dy, 180) == o {
        180
    } else if points(dx, dy, 270) == o {
        270
    } else {
        0
    }
}

fn pointing(dx: i128, dy: i128, angle: i32) -> (r: Orient)
    requires
        -0x1_0000_0000_0000_0000 <= dx <= 0x1_0000_0000_0000_0000,
        -0x1_0000_0000_0000_0000 <= dy <= 0x1_0000_0000_0000_0000,
    ensures
        r == points(dx as int, dy as int, angle as int),
{
    let (sx, sy): (i128, i128) = if angle == 90 {
        (-dy, -dx)
    } else if angle == 180 {
        (-dx, dy)
    } else if angle == 270 {
        (dy, dx)
    } else {
        (dx, -dy)
    };
    let ax: i128 = if sx < 0 { -sx } else { sx };
    let ay: i128 = if sy < 0 { -sy } else { sy };
    if ax >= ay {
        if sx >= 0 {
            Orient::Right
        } else {
            Orient::Left
        }
    } else if sy >= 0 {
        Orient::Down
    } else {
        Orient::Up
    }
}

fn find_numbered(v: &Vec<emit::PinGeom>, n: &str) -> (r: usize)
    ensures
        r <= v@.len(),
        r == pin_numbered(v@, n@, 0),
{
    let mut i: usize = 0;
    while i < v.len()
        invariant
            i <= v@.len(),
            pin_numbered(v@, n@, 0) == pin_numbered(v@, n@, i as int),
        decreases v@.len() - i,
    {
        if same(v[i].number.as_str(), n) {
            return i;
        }
        i += 1;
    }
    i
}

/// The turn that makes a part with two pins point as wanted. Other parts stay as they are.
pub open spec fn angle_for(g: SymbolGeometry, o: Orient) -> i32 {
    if g.pins@.len() != 2 {
        0
    } else {
        let (a, b) = ends_of(g);
        turn_for(b.x - a.x, b.y - a.y, o)
    }
}

/// The turn that makes a part with two pins point as wanted. Other parts stay as they are.
pub fn orient_angle(g: &SymbolGeometry, o: Orient) -> (r: i32)
    ensures
        r == angle_for(*g, o),
{
    if g.pins.len() != 2 {
        return 0;
    }
    let i = find_numbered(&g.pins, "1");
    let j = find_numbered(&g.pins, "2");
    let (a, b) = if i < g.pins.len() && j < g.pins.len() {
        (g.pins[i].at, g.pins[j].at)
    } else {
        (g.pins[0].at, g.pins[1].at)
    };
    let (dx, dy) = (b.x as i128 - a.x as i128, b.y as i128 - a.y as i128);
    if pointing(dx, dy, 0) == o {
        0
    } else if pointing(dx, dy, 90) == o {
        90
    } else if pointing(dx, dy, 180) == o {
        180
    } else if pointing(dx, dy, 270) == o {
        270
    } else {
        0
    }
}

/// A part whose pins differ along one axis can be turned to point any way.
pub proof fn every_way_can_be_had(dx: int, dy: int, o: Orient)
    requires
        (dx == 0) != (dy == 0),
    ensures
        points(dx, dy, turn_for(dx, dy, o) as int) == o,
{
}

// ---------------------------------------------------------------- the corner of a plan
pub open spec fn least_x(v: Seq<Pt>, n: int) -> i64
    decreases n,
{
    if n <= 1 {
        v[0].x
    } else {
        geom::lo(least_x(v, n - 1) as int, v[n - 1].x as int) as i64
    }
}

pub open spec fn least_y(v: Seq<Pt>, n: int) -> i64
    decreases n,
{
    if n <= 1 {
        v[0].y
    } else {
        geom::lo(least_y(v, n - 1) as int, v[n - 1].y as int) as i64
    }
}

/// The places of a plan, moved so that it begins at the margin.
pub fn normalize(v: &Vec<Pt>) -> (r: Vec<Pt>)
    ensures
        r@.len() == v@.len(),
        forall|i: int|
            0 <= i < r@.len() ==> (#[trigger] r@[i]).x == orient::cut(
                v@[i].x - least_x(v@, v@.len() as int) + MARGIN,
            ) && r@[i].y == orient::cut(v@[i].y - least_y(v@, v@.len() as int) + MARGIN),
{
    let mut r: Vec<Pt> = Vec::new();
    if v.len() == 0 {
        return r;
    }
    let mut x: i64 = v[0].x;
    let mut y: i64 = v[0].y;
    let mut i: usize = 1;
    while i < v.len()
        invariant
            1 <= i <= v@.len(),
            x == least_x(v@, i as int),
            y == least_y(v@, i as int),
        decreases v@.len() - i,
    {
        if v[i].x < x {
            x = v[i].x;
        }
        if v[i].y < y {
            y = v[i].y;
        }
        i += 1;
    }
    i = 0;
    while i < v.len()
        invariant
            i <= v@.len(),
            x == least_x(v@, v@.len() as int),
            y == least_y(v@, v@.len() as int),
            r@.len() == i,
            forall|k: int|
                0 <= k < i ==> (#[trigger] r@[k]).x == orient::cut(v@[k].x - x + MARGIN)
                    && r@[k].y == orient::cut(v@[k].y - y + MARGIN),
        decreases v@.len() - i,
    {
        r.push(
            Pt {
                x: cut_wide(v[i].x as i128 - x as i128 + MARGIN as i128),
                y: cut_wide(v[i].y as i128 - y as i128 + MARGIN as i128),
            },
        );
        i += 1;
    }
    r
}

} // verus!
