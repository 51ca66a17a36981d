//! A circuit as the schematic writer takes it: blocks of components whose pins are on nets.
use crate::emit::Dir;
use crate::geom::Pt;
use crate::text::same;
use vstd::prelude::*;

verus! {

/// What a pin is connected to.
#[derive(Debug, Clone, PartialEq, Eq)]
pub enum PinTarget {
    Net(String),
    NoConnect,
}

/// Where a component comes from.
#[derive(Debug, Clone, PartialEq, Eq)]
pub enum Origin {
    Authored,
    Synthesized { parent: String, role: String, index: u32 },
}

#[derive(Debug, Clone)]
pub struct Component {
    pub part: String,
    pub value: Option<String>,
    pub pins: Vec<(String, PinTarget)>,
    /// The pins of each unit.
    pub units: Vec<Vec<(String, PinTarget)>>,
    pub origin: Origin,
    /// Spans a rail: stands with its ground side down.
    pub rail_span: bool,
}

#[derive(Debug, Clone)]
pub struct Block {
    pub components: Vec<(String, Component)>,
    /// The edge and the neighbour the block asks for, as they are written.
    pub edge: String,
    pub near: String,
    pub note: Option<String>,
}

#[derive(Debug, Clone)]
pub struct Design {
    pub name: Option<String>,
    pub blocks: Vec<(String, Block)>,
    /// Each net, and whether it is a power net.
    pub nets: Vec<(String, bool)>,
}

/// The electrical kind of a pin.
#[derive(Debug, Clone, Copy, PartialEq, Eq, Structural)]
pub enum PinKind {
    PowerInput,
    PowerOutput,
    Other,
}

#[derive(Debug, Clone)]
pub struct PinMeta {
    pub number: String,
    pub name: String,
    pub kind: PinKind,
}

#[derive(Debug, Clone)]
pub struct SymbolMeta {
    pub lib_id: String,
    pub pins: Vec<PinMeta>,
}

/// What is known of the symbols in use.
#[derive(Debug, Clone)]
pub struct Provider {
    pub symbols: Vec<SymbolMeta>,
}

/// The first symbol from `i` on with a library id, or the number of symbols.
pub open spec fn meta_at(v: Seq<SymbolMeta>, lib: Seq<char>, i: int) -> int
    decreases v.len() - i,
{
    if i < 0 || i >= v.len() || v[i].lib_id@ == lib {
        i
    } else {
        meta_at(v, lib, i + 1)
    }
}

impl Provider {
    pub open spec fn found(&self, lib: Seq<char>) -> Option<SymbolMeta> {
        let i = meta_at(self.symbols@, lib, 0);
        if i < self.symbols@.len() {
            Some(self.symbols@[i])
        } else {
            None
        }
    }

    pub fn symbol(&self, lib: &str) -> (r: Option<&SymbolMeta>)
        ensures
            match r {
                Some(m) => self.found(lib@) == Some(*m),
                None => self.found(lib@) is None,
            },
    {
        let mut i: usize = 0;
        while i < self.symbols.len()
            invariant
                i <= self.symbols@.len(),
                meta_at(self.symbols@, lib@, 0) == meta_at(self.symbols@, lib@, i as int),
            decreases self.symbols@.len() - i,
        {
            if same(self.symbols[i].lib_id.as_str(), lib) {
                return Some(&self.symbols[i]);
            }
            i += 1;
        }
        None
    }
}

/// The first pin from `i` on of a number or of a name, or the number of pins.
pub open spec fn pin_at(v: Seq<PinMeta>, pin: Seq<char>, by_name: bool, i: int) -> int
    decreases v.len() - i,
{
    if i < 0 || i >= v.len() || (if by_name {
        v[i].name@
    } else {
        v[i].number@
    }) == pin {
        i
    } else {
        pin_at(v, pin, by_name, i + 1)
    }
}

/// The kind of a pin, found by its number, else by its name.
pub open spec fn kind_of(v: Seq<PinMeta>, pin: Seq<char>) -> Option<PinKind> {
    let a = pin_at(v, pin, false, 0);
    let b = pin_at(v, pin, true, 0);
    if a < v.len() {
        Some(v[a].kind)
    } else if b < v.len() {
        Some(v[b].kind)
    } else {
        None
    }
}

fn find_pin_at(v: &Vec<PinMeta>, pin: &str, by_name: bool) -> (r: usize)
    ensures
        r <= v@.len(),
        r == pin_at(v@, pin@, by_name, 0),
{
    let mut i: usize = 0;
    while i < v.len()
        invariant
            i <= v@.len(),
            pin_at(v@, pin@, by_name, 0) == pin_at(v@, pin@, by_name, i as int),
        decreases v@.len() - i,
    {
        let own = if by_name { v[i].name.as_str() } else { v[i].number.as_str() };
        if same(own, pin) {
            return i;
        }
        i += 1;
    }
    i
}

/// The kind of a pin, found by its number, else by its name.
pub fn find_kind(v: &Vec<PinMeta>, pin: &str) -> (r: Option<PinKind>)
    ensures
        r == kind_of(v@, pin@),
{
    let a = find_pin_at(v, pin, false);
    if a < v.len() {
        return Some(v[a].kind);
    }
    let b = find_pin_at(v, pin, true);
    if b < v.len() {
        Some(v[b].kind)
    } else {
        None
    }
}

// ---------------------------------------------------------------- pins of a component
/// A pin with the net it is on; none for one that stays open.
pub type PinV = (Seq<char>, Option<Seq<char>>);

pub open spec fn target_v(t: PinTarget) -> Option<Seq<char>> {
    match t {
        PinTarget::Net(n) => Some(n@),
        PinTarget::NoConnect => None,
    }
}

pub open spec fn pins_v(v: Seq<(String, PinTarget)>) -> Seq<PinV> {
    Seq::new(v.len(), |i: int| (v[i].0@, target_v(v[i].1)))
}

/// The pins of the first `n` units.
pub open spec fn unit_pins(v: Seq<Vec<(String, PinTarget)>>, n: int) -> Seq<PinV>
    decreases n,
{
    if n <= 0 {
        Seq::empty()
    } else {
        unit_pins(v, n - 1) + pins_v(v[n - 1]@)
    }
}

/// Every pin of a component: its own, then those of its units.
pub open spec fn all_pins(c: Component) -> Seq<PinV> {
    pins_v(c.pins@) + unit_pins(c.units@, c.units@.len() as int)
}

/// A pin as it is handed on.
#[derive(Debug)]
pub struct Wanted {
    pub pin: String,
    pub net: Option<String>,
}

pub open spec fn wanted_v(v: Seq<Wanted>) -> Seq<PinV> {
    Seq::new(
        v.len(),
        |i: int|
            (
                v[i].pin@,
                match v[i].net {
                    Some(n) => Some(n@),
                    None => None,
                },
            ),
    )
}

fn push_pins(out: &mut Vec<Wanted>, v: &Vec<(String, PinTarget)>)
    ensures
        wanted_v(final(out)@) == wanted_v(old(out)@) + pins_v(v@),
{
    let ghost o0 = wanted_v(out@);
    let ghost want = pins_v(v@);
    let mut i: usize = 0;
    assert(wanted_v(out@) =~= o0 + want.take(0));
    while i < v.len()
        invariant
            i <= v@.len(),
            want == pins_v(v@),
            wanted_v(out@) == o0 + want.take(i as int),
        decreases v@.len() - i,
    {
        let ghost b = wanted_v(out@);
        let net = match &v[i].1 {
            PinTarget::Net(n) => Some(n.clone()),
            PinTarget::NoConnect => None,
        };
        out.push(Wanted { pin: v[i].0.clone(), net });
        assert(wanted_v(out@) =~= b.push(want[i as int]));
        assert(want.take(i + 1) =~= want.take(i as int).push(want[i as int]));
        assert(wanted_v(out@) =~= o0 + want.take(i + 1));
        i += 1;
    }
    assert(want.take(i as int) =~= want);
}

/// Every pin of a component.
pub fn list_pins(c: &Component) -> (r: Vec<Wanted>)
    ensures
        wanted_v(r@) == all_pins(*c),
{
    let mut r: Vec<Wanted> = Vec::new();
    assert(wanted_v(r@) =~= Seq::empty());
    push_pins(&mut r, &c.pins);
    let ghost own = wanted_v(r@);
    assert(own =~= pins_v(c.pins@));
    let mut i: usize = 0;
    assert(wanted_v(r@) =~= own + unit_pins(c.units@, 0));
    while i < c.units.len()
        invariant
            i <= c.units@.len(),
            wanted_v(r@) == own + unit_pins(c.units@, i as int),
        decreases c.units@.len() - i,
    {
        push_pins(&mut r, &c.units[i]);
        assert(wanted_v(r@) =~= own + unit_pins(c.units@, i + 1));
        i += 1;
    }
    r
}

// ---------------------------------------------------------------- the layout grammar
/// One element of a chain, entered at `a` and left at `b`.
#[derive(Debug, Clone, PartialEq, Eq)]
pub struct Link {
    pub refdes: String,
    pub a_pin: String,
    pub a_net: String,
    pub b_pin: String,
    pub b_net: String,
}

#[derive(Debug, Clone)]
pub struct Chain {
    /// The class of the chain, as it is written.
    pub class: String,
    pub links: Vec<Link>,
}

/// Parts side by side between the same two nets.
#[derive(Debug, Clone)]
pub struct Bank {
    pub a_net: String,
    pub b_net: String,
    pub members: Vec<String>,
}

/// Parts that are placed and wired as one.
#[derive(Debug, Clone)]
pub struct Cluster {
    pub chains: Vec<Chain>,
    pub banks: Vec<Bank>,
    pub members: Vec<String>,
}

#[derive(Debug, Clone)]
pub struct BlockGraph {
    /// The components that stand on their own.
    pub anchors: Vec<String>,
    pub clusters: Vec<Cluster>,
    /// Where the analysis had to give up structure.
    pub degradations: Vec<String>,
}

/// The drawing of a cluster around its own origin.
#[derive(Debug, Clone)]
pub struct ClusterGeom {
    pub placements: Vec<(String, Pt, i32)>,
    /// The width and the height that the drawing takes.
    pub envelope: Pt,
    pub wires: Vec<(Pt, Pt, String)>,
    pub junctions: Vec<Pt>,
    pub ports: Vec<(String, Pt)>,
    pub labels: Vec<(String, Pt, Dir)>,
    /// Where a pin of each net can be joined.
    pub tap_points: Vec<(String, Pt)>,
    /// Pins whose connections the drawing shows.
    pub covered: Vec<(String, String)>,
}

} // verus!
