//! The writing of a circuit: components, power symbols, clusters, flags, nets and frames.
use crate::emit;
use crate::emit::{Dir, EmitError, EmitErrorV, Gallery, PinEnd};
use crate::emit::{snap_point, snap_sum, SchematicWriter, WriterV, STUB};
use crate::flex::cut_wide;
use crate::geom::Pt;
use crate::grammar;
use crate::grammar::is_ground;
use crate::kernel;
use crate::kernel::{Block, Cluster, Component, PinKind, Provider};
use crate::kernel::{find_kind, list_pins, SymbolMeta};
use crate::names;
use crate::names::add_distinct;
use crate::order_map;
use crate::orient;
use crate::reconcile;
use crate::reconcile::{ap_properties, cluster_key, find_named, find_prior, get_origin};
use crate::reconcile::{power_lib_id, resolve_placement, seek_name, GrammarInputs, Identity, Layout};
use crate::reconcile::{PriorMap, Relayout};
use crate::text;
use crate::text::{same, Line};
use crate::tree;
use indexmap::IndexMap;
use vstd::prelude::*;

verus! {

/// Height of the riser between a level stub and its power symbol.
pub const RISER: i64 = 254_000;

/// A pin end of a signal net that is wired or labelled later.
#[derive(Debug)]
pub struct Sig {
    pub net: String,
    pub refdes: String,
    pub pin: String,
    pub at: Pt,
    pub dir: Dir,
}

#[verifier::ext_equal]
pub struct SigV {
    pub net: Seq<char>,
    pub refdes: Seq<char>,
    pub pin: Seq<char>,
    pub at: Pt,
    pub dir: Dir,
}

impl Sig {
    pub open spec fn view(&self) -> SigV {
        SigV { net: self.net@, refdes: self.refdes@, pin: self.pin@, at: self.at, dir: self.dir }
    }
}

/// A label of a cluster that is drawn later: where its stub starts and where it stands.
#[derive(Debug)]
pub struct Tap {
    pub net: String,
    pub tap: Pt,
    pub label: Pt,
    pub dir: Dir,
}

#[verifier::ext_equal]
pub struct TapV {
    pub net: Seq<char>,
    pub tap: Pt,
    pub label: Pt,
    pub dir: Dir,
}

impl Tap {
    pub open spec fn view(&self) -> TapV {
        TapV { net: self.net@, tap: self.tap, label: self.label, dir: self.dir }
    }
}

pub open spec fn sigs_v(v: Seq<Sig>) -> Seq<SigV> {
    Seq::new(v.len(), |i: int| v[i]@)
}

pub open spec fn taps_v(v: Seq<Tap>) -> Seq<TapV> {
    Seq::new(v.len(), |i: int| v[i]@)
}

/// A circuit half written: the sheet, and what is still to be decided.
#[derive(Debug)]
pub struct Draft {
    pub w: SchematicWriter,
    pub signals: Vec<Sig>,
    pub taps: Vec<Tap>,
    /// Nets with the blocks they touch, each pair once.
    pub touched: Vec<(String, String)>,
    pub used: Vec<String>,
    pub driven: Vec<String>,
    pub inputs: Vec<String>,
    /// Where the first power symbol of each net attaches.
    pub attach: Vec<(String, Pt)>,
    /// Where each component was put.
    pub emitted: Vec<(String, Pt)>,
    pub counts: Vec<(String, u64)>,
    /// How many power symbols clusters have.
    pub ports: u64,
    /// Nets that could not be wired.
    pub notes: Vec<String>,
}

#[verifier::ext_equal]
pub struct DraftV {
    pub w: WriterV,
    pub signals: Seq<SigV>,
    pub taps: Seq<TapV>,
    pub touched: Seq<(Seq<char>, Seq<char>)>,
    pub used: Seq<Seq<char>>,
    pub driven: Seq<Seq<char>>,
    pub inputs: Seq<Seq<char>>,
    pub attach: Seq<(Seq<char>, Pt)>,
    pub emitted: Seq<(Seq<char>, Pt)>,
    pub counts: Seq<(Seq<char>, u64)>,
    pub ports: u64,
    pub notes: Seq<Seq<char>>,
}

impl View for Draft {
    type V = DraftV;

    open spec fn view(&self) -> DraftV {
        DraftV {
            w: self.w@,
            signals: sigs_v(self.signals@),
            taps: taps_v(self.taps@),
            touched: emit::pairs_v(self.touched@),
            used: text::views(self.used@),
            driven: text::views(self.driven@),
            inputs: text::views(self.inputs@),
            attach: reconcile::named(self.attach@),
            emitted: reconcile::named(self.emitted@),
            counts: reconcile::named(self.counts@),
            ports: self.ports,
            notes: text::views(self.notes@),
        }
    }
}

impl DraftV {
    pub open spec fn on(self, w: WriterV) -> DraftV {
        DraftV { w, ..self }
    }

    pub open spec fn using(self, net: Seq<char>) -> DraftV {
        DraftV { used: names::set_add(self.used, net), ..self }
    }

    pub open spec fn touching(self, net: Seq<char>, block: Seq<char>) -> DraftV {
        if self.touched.contains((net, block)) {
            self
        } else {
            DraftV { touched: self.touched.push((net, block)), ..self }
        }
    }

    pub open spec fn attached(self, net: Seq<char>, at: Pt) -> DraftV {
        if order_map::look(self.attach, net) is Some {
            self
        } else {
            DraftV { attach: self.attach.push((net, at)), ..self }
        }
    }

    pub open spec fn signal(self, s: SigV) -> DraftV {
        DraftV { signals: self.signals.push(s), ..self }
    }

    pub open spec fn tapped(self, t: TapV) -> DraftV {
        DraftV { taps: self.taps.push(t), ..self }
    }
}

pub type Drawn = Result<DraftV, EmitErrorV>;

/// Whether an outcome is the meant one: the same draft, or the same error.
pub open spec fn comes_out(r: Result<(), EmitError>, d: DraftV, want: Drawn) -> bool {
    match want {
        Ok(x) => r is Ok && d == x,
        Err(e) => r is Err && r->Err_0@ == e,
    }
}

impl Draft {
    pub(crate) fn use_net(&mut self, net: &str)
        ensures
            final(self)@ == old(self)@.using(net@),
    {
        let ghost b = self@;
        add_distinct(&mut self.used, net.to_owned());
        assert(self@ =~= b.using(net@));
    }

    pub(crate) fn touch(&mut self, net: &str, block: &str)
        ensures
            final(self)@ == old(self)@.touching(net@, block@),
    {
        let ghost b = self@;
        let ghost m = b.touched;
        let mut i: usize = 0;
        while i < self.touched.len()
            invariant
                i <= self.touched@.len(),
                self@ == b,
                m == emit::pairs_v(self.touched@),
                m == b.touched,
                forall|k: int| 0 <= k < i ==> #[trigger] m[k] != (net@, block@),
            decreases self.touched@.len() - i,
        {
            assert(m[i as int] == (self.touched@[i as int].0@, self.touched@[i as int].1@));
            if same(self.touched[i].0.as_str(), net) && same(self.touched[i].1.as_str(), block) {
                return;
            }
            i += 1;
        }
        self.touched.push((net.to_owned(), block.to_owned()));
        assert(emit::pairs_v(self.touched@) =~= m.push((net@, block@)));
        assert(self@ =~= b.touching(net@, block@));
    }

    pub(crate) fn attach_net(&mut self, net: &str, at: Pt)
        ensures
            final(self)@ == old(self)@.attached(net@, at),
    {
        let ghost b = self@;
        if find_named(&self.attach, net).is_none() {
            self.attach.push((net.to_owned(), at));
            assert(reconcile::named(self.attach@) =~= b.attach.push((net@, at)));
            assert(self@ =~= b.attached(net@, at));
        }
    }

    pub(crate) fn push_signal(&mut self, net: &str, refdes: &str, pin: &str, at: Pt, dir: Dir)
        ensures
            final(self)@ == old(self)@.signal(
                (SigV { net: net@, refdes: refdes@, pin: pin@, at, dir }),
            ),
    {
        let ghost b = self@;
        let s = Sig {
            net: net.to_owned(),
            refdes: refdes.to_owned(),
            pin: pin.to_owned(),
            at,
            dir,
        };
        let ghost sv = s@;
        self.signals.push(s);
        assert(sigs_v(self.signals@) =~= b.signals.push(sv));
        assert(self@ =~= b.signal(sv));
    }

    pub(crate) fn push_tap(&mut self, net: &str, tap: Pt, label: Pt, dir: Dir)
        ensures
            final(self)@ == old(self)@.tapped((TapV { net: net@, tap, label, dir })),
    {
        let ghost b = self@;
        let t = Tap { net: net.to_owned(), tap, label, dir };
        let ghost tv = t@;
        self.taps.push(t);
        assert(taps_v(self.taps@) =~= b.taps.push(tv));
        assert(self@ =~= b.tapped(tv));
    }
}

// ---------------------------------------------------------------- power pins
pub open spec fn cut_pt(x: int, y: int) -> Pt {
    Pt { x: orient::cut(x), y: orient::cut(y) }
}

/// The end of the stub at a pin end.
pub open spec fn stub_end(e: PinEnd) -> Pt {
    cut_pt(e.at.x + e.dir.dx() * STUB, e.at.y + e.dir.dy() * STUB)
}

/// Where the power symbol of a pin end attaches: at the end of an upright stub, or above or below
/// that of a level one.
pub open spec fn attach_of(e: PinEnd, down: bool) -> Pt {
    let s = stub_end(e);
    if e.dir == Dir::North || e.dir == Dir::South {
        s
    } else {
        cut_pt(
            s.x as int,
            s.y + if down {
                RISER as int
            } else {
                -RISER
            },
        )
    }
}

/// The orientation of the power symbol: turned over where the pin points the wrong way.
pub open spec fn power_angle(d: Dir, down: bool) -> i32 {
    if (d == Dir::South && !down) || (d == Dir::North && down) {
        180
    } else {
        0
    }
}

/// The sheet with the stub and the riser of a pin end.
pub open spec fn with_stub(w: WriterV, e: PinEnd, down: bool) -> WriterV {
    let s = stub_end(e);
    let v = w.with_wire(e.at, s, None);
    if e.dir == Dir::North || e.dir == Dir::South {
        v
    } else {
        v.with_wire(s, attach_of(e, down), None)
    }
}

pub open spec fn power_ref(refdes: Seq<char>, pin: Seq<char>, i: int) -> Seq<char> {
    "#PWR_"@ + refdes + "_"@ + pin + "_"@ + text::digits(i as nat)
}

/// The draft with power symbols at the first `n` ends of a pin.
pub open spec fn powered(
    d: DraftV,
    g: Gallery,
    lib: Seq<char>,
    refdes: Seq<char>,
    pin: Seq<char>,
    net: Seq<char>,
    ends: Seq<PinEnd>,
    n: int,
) -> Drawn
    decreases n,
{
    if n <= 0 {
        Ok(d)
    } else {
        match powered(d, g, lib, refdes, pin, net, ends, n - 1) {
            Err(e) => Err(e),
            Ok(x) => {
                let e = ends[n - 1];
                let down = grammar::hangs_down(net);
                match g.found(lib) {
                    None => Err(EmitErrorV::NoSymbol(lib)),
                    Some(s) => Ok(
                        x.on(
                            with_stub(x.w, e, down).with_symbol(
                                s,
                                power_ref(refdes, pin, n - 1),
                                net,
                                attach_of(e, down),
                                power_angle(e.dir, down),
                                Seq::empty(),
                                None,
                            ),
                        ).attached(net, attach_of(e, down)),
                    ),
                }
            },
        }
    }
}

fn cut_point(x: i128, y: i128) -> (r: Pt)
    ensures
        r == cut_pt(x as int, y as int),
{
    Pt { x: cut_wide(x), y: cut_wide(y) }
}

fn power_end(
    d: &mut Draft,
    gallery: &Gallery,
    lib: &str,
    refdes: &str,
    pin: &str,
    net: &str,
    down: bool,
    e: &PinEnd,
    i: usize,
) -> (r: Result<(), EmitError>)
    requires
        down == grammar::hangs_down(net@),
    ensures
        comes_out(
            r,
            final(d)@,
            match gallery.found(lib@) {
                None => Err(EmitErrorV::NoSymbol(lib@)),
                Some(s) => Ok(
                    old(d)@.on(
                        with_stub(old(d)@.w, *e, down).with_symbol(
                            s,
                            power_ref(refdes@, pin@, i as int),
                            net@,
                            attach_of(*e, down),
                            power_angle(e.dir, down),
                            Seq::empty(),
                            None,
                        ),
                    ).attached(net@, attach_of(*e, down)),
                ),
            },
        ),
{
    let ghost b = d@;
    let v = e.dir.vec();
    let s = cut_point(
        e.at.x as i128 + (v.0 * STUB) as i128,
        e.at.y as i128 + (v.1 * STUB) as i128,
    );
    d.w.add_wire(e.at, s);
    let (at, angle): (Pt, i32) = match e.dir {
        Dir::North => (s, if down { 180 } else { 0 }),
        Dir::South => (s, if down { 0 } else { 180 }),
        _ => {
            let dy: i64 = if down { RISER } else { -RISER };
            let a = cut_point(s.x as i128, s.y as i128 + dy as i128);
            d.w.add_wire(s, a);
            (a, 0)
        },
    };
    assert(d.w@ == with_stub(b.w, *e, down));
    let name = Line::of("#PWR_").add(refdes).add("_").add(pin).add("_").count(i as u128).done();
    match d.w.add_power_symbol(gallery, lib, name.as_str(), net, at, angle) {
        Ok(_) => {},
        Err(x) => return Err(x),
    }
    let ghost mid = d@;
    d.attach_net(net, at);
    assert(mid =~= b.on(mid.w));
    Ok(())
}

/// Gives each end of a pin on a power net a stub with a power symbol.
pub fn emit_power_pin(
    d: &mut Draft,
    gallery: &Gallery,
    provider: &Provider,
    refdes: &str,
    pin: &str,
    net: &str,
) -> (r: Result<(), EmitError>)
    ensures
        comes_out(
            r,
            final(d)@,
            match emit::pin_ends(old(d)@.w, *gallery, refdes@, pin@) {
                Err(e) => Err(e),
                Ok(v) => powered(
                    old(d)@,
                    *gallery,
                    reconcile::power_symbol(net@, *provider),
                    refdes@,
                    pin@,
                    net@,
                    v,
                    v.len() as int,
                ),
            },
        ),
{
    let ghost b = d@;
    let lib = power_lib_id(net, provider);
    let down = is_ground(net);
    let ends = match d.w.pin_dirs(gallery, refdes, pin) {
        Ok(v) => v,
        Err(e) => return Err(e),
    };
    let mut i: usize = 0;
    while i < ends.len()
        invariant
            i <= ends@.len(),
            b == old(d)@,
            lib@ == reconcile::power_symbol(net@, *provider),
            emit::pin_ends(b.w, *gallery, refdes@, pin@) == Ok::<Seq<PinEnd>, EmitErrorV>(ends@),
            down == grammar::hangs_down(net@),
            powered(b, *gallery, lib@, refdes@, pin@, net@, ends@, i as int) == Ok::<
                DraftV,
                EmitErrorV,
            >(d@),
        decreases ends@.len() - i,
    {
        match power_end(d, gallery, lib.as_str(), refdes, pin, net, down, &ends[i], i) {
            Ok(_) => {},
            Err(e) => {
                proof {
                    lemma_powered_err(
                        b,
                        *gallery,
                        lib@,
                        refdes@,
                        pin@,
                        net@,
                        ends@,
                        i + 1,
                        ends@.len() as int,
                    );
                }
                return Err(e);
            },
        }
        i += 1;
    }
    Ok(())
}

proof fn lemma_powered_err(
    d: DraftV,
    g: Gallery,
    lib: Seq<char>,
    refdes: Seq<char>,
    pin: Seq<char>,
    net: Seq<char>,
    ends: Seq<PinEnd>,
    n: int,
    m: int,
)
    requires
        0 <= n <= m,
        powered(d, g, lib, refdes, pin, net, ends, n) is Err,
    ensures
        powered(d, g, lib, refdes, pin, net, ends, m) == powered(
            d,
            g,
            lib,
            refdes,
            pin,
            net,
            ends,
            n,
        ),
    decreases m - n,
{
    if n < m {
        lemma_powered_err(d, g, lib, refdes, pin, net, ends, n, m - 1);
    }
}

// ---------------------------------------------------------------- one pin
/// The draft with the first `n` ends of a signal pin noted, but for those that a join already
/// wires.
pub open spec fn signalled(
    d: DraftV,
    block: Seq<char>,
    refdes: Seq<char>,
    pin: Seq<char>,
    net: Seq<char>,
    joins: Seq<Pt>,
    ends: Seq<PinEnd>,
    n: int,
) -> DraftV
    decreases n,
{
    if n <= 0 {
        d
    } else {
        let x = signalled(d, block, refdes, pin, net, joins, ends, n - 1);
        let p = emit::snap_of(ends[n - 1].at);
        if joins.contains(p) {
            x
        } else {
            x.signal(SigV { net, refdes, pin, at: p, dir: ends[n - 1].dir }).touching(net, block)
        }
    }
}

/// What all the pins of a circuit are written against.
pub struct Rails {
    pub power: Vec<String>,
    /// Pin ends that joins wire.
    pub joins: Vec<Pt>,
}

#[verifier::ext_equal]
pub struct RailsV {
    pub power: Seq<Seq<char>>,
    pub joins: Seq<Pt>,
}

impl View for Rails {
    type V = RailsV;

    open spec fn view(&self) -> RailsV {
        RailsV { power: text::views(self.power@), joins: self.joins@ }
    }
}

/// The draft after one pin: a power symbol, a signal noted for later, or a mark that it stays open.
pub open spec fn pinned(
    d: DraftV,
    g: Gallery,
    p: Provider,
    rails: RailsV,
    block: Seq<char>,
    refdes: Seq<char>,
    pin: Seq<char>,
    net: Option<Seq<char>>,
) -> Drawn {
    match net {
        None => match emit::pin_ends(d.w, g, refdes, pin) {
            Err(e) => Err(e),
            Ok(v) => Ok(
                d.on(
                    WriterV {
                        no_connects: d.w.no_connects + emit::end_marks(
                            v,
                            refdes,
                            pin,
                            v.len() as int,
                        ),
                        ..d.w
                    },
                ),
            ),
        },
        Some(n) => {
            let u = d.using(n);
            match emit::pin_ends(d.w, g, refdes, pin) {
                Err(e) => Err(e),
                Ok(v) => if rails.power.contains(n) {
                    powered(
                        u,
                        g,
                        reconcile::power_symbol(n, p),
                        refdes,
                        pin,
                        n,
                        v,
                        v.len() as int,
                    )
                } else {
                    Ok(signalled(u, block, refdes, pin, n, rails.joins, v, v.len() as int))
                },
            }
        },
    }
}

fn has_point(v: &Vec<Pt>, p: Pt) -> (r: bool)
    ensures
        r == v@.contains(p),
{
    let mut i: usize = 0;
    while i < v.len()
        invariant
            i <= v@.len(),
            forall|k: int| 0 <= k < i ==> #[trigger] v@[k] != p,
        decreases v@.len() - i,
    {
        if v[i].x == p.x && v[i].y == p.y {
            assert(v@[i as int] == p);
            return true;
        }
        i += 1;
    }
    false
}

/// Writes one pin: a power symbol, a signal noted for later, or a mark that it stays open.
pub fn emit_pin(
    d: &mut Draft,
    gallery: &Gallery,
    provider: &Provider,
    rails: &Rails,
    block: &str,
    refdes: &str,
    pin: &str,
    net: Option<&str>,
) -> (r: Result<(), EmitError>)
    ensures
        comes_out(
            r,
            final(d)@,
            pinned(
                old(d)@,
                *gallery,
                *provider,
                rails@,
                block@,
                refdes@,
                pin@,
                match net {
                    Some(n) => Some(n@),
                    None => None,
                },
            ),
        ),
{
    let ghost b = d@;
    match net {
        None => {
            let r = d.w.add_no_connect(gallery, refdes, pin);
            assert(d@ =~= b.on(d@.w));
            r
        },
        Some(n) => {
            d.use_net(n);
            if names::has_name(&rails.power, n) {
                return emit_power_pin(d, gallery, provider, refdes, pin, n);
            }
            let ghost u = d@;
            let ends = match d.w.pin_dirs(gallery, refdes, pin) {
                Ok(v) => v,
                Err(e) => return Err(e),
            };
            let mut i: usize = 0;
            while i < ends.len()
                invariant
                    i <= ends@.len(),
                    d@ == signalled(
                        u,
                        block@,
                        refdes@,
                        pin@,
                        n@,
                        rails.joins@,
                        ends@,
                        i as int,
                    ),
                decreases ends@.len() - i,
            {
                let p = snap_point(ends[i].at);
                if !has_point(&rails.joins, p) {
                    d.push_signal(n, refdes, pin, p, ends[i].dir);
                    d.touch(n, block);
                }
                i += 1;
            }
            Ok(())
        },
    }
}

/// The draft after the kind of a pin is taken into account: what drives its net, or what its net
/// must be driven for.
pub open spec fn with_role(
    d: DraftV,
    meta: Option<SymbolMeta>,
    pin: Seq<char>,
    net: Option<Seq<char>>,
) -> DraftV {
    if net is None || meta is None {
        d
    } else {
        match kernel::kind_of(meta->0.pins@, pin) {
            Some(PinKind::PowerOutput) => DraftV {
                driven: names::set_add(d.driven, net->0),
                ..d
            },
            Some(PinKind::PowerInput) => DraftV {
                inputs: names::set_add(d.inputs, net->0),
                ..d
            },
            _ => d,
        }
    }
}

pub open spec fn opt_meta(m: Option<&SymbolMeta>) -> Option<SymbolMeta> {
    match m {
        Some(x) => Some(*x),
        None => None,
    }
}

pub fn record_power_role(d: &mut Draft, meta: Option<&SymbolMeta>, pin: &str, net: Option<&str>)
    ensures
        final(d)@ == with_role(
            old(d)@,
            opt_meta(meta),
            pin@,
            match net {
                Some(n) => Some(n@),
                None => None,
            },
        ),
{
    let ghost b = d@;
    if let (Some(m), Some(n)) = (meta, net) {
        match find_kind(&m.pins, pin) {
            Some(PinKind::PowerOutput) => {
                add_distinct(&mut d.driven, n.to_owned());
                assert(d@ =~= DraftV { driven: names::set_add(b.driven, n@), ..b });
            },
            Some(PinKind::PowerInput) => {
                add_distinct(&mut d.inputs, n.to_owned());
                assert(d@ =~= DraftV { inputs: names::set_add(b.inputs, n@), ..b });
            },
            _ => {},
        }
    }
}

// ---------------------------------------------------------------- components
/// What components are placed by.
pub struct Scene<'a> {
    pub gallery: &'a Gallery,
    pub provider: &'a Provider,
    pub gi: &'a GrammarInputs,
    pub auto: &'a Layout,
    pub prior: &'a PriorMap,
    pub relayout: &'a Relayout,
}

/// A component with the place it is given.
#[verifier::ext_equal]
pub struct SpotV {
    pub at: Pt,
    pub angle: i32,
    pub uuid: Option<Seq<char>>,
    pub rev: Seq<char>,
    pub replaced: bool,
}

pub struct Spot {
    pub at: Pt,
    pub angle: i32,
    pub uuid: Option<String>,
    pub rev: String,
    pub replaced: bool,
}

impl Spot {
    pub open spec fn view(&self) -> SpotV {
        SpotV {
            at: self.at,
            angle: self.angle,
            uuid: tree::text_v(self.uuid),
            rev: self.rev@,
            replaced: self.replaced,
        }
    }
}

pub open spec fn origin_at(o: reconcile::OriginsV, key: Seq<char>) -> (i64, i64) {
    match order_map::look(o, key) {
        Some(p) => p,
        None => (0, 0),
    }
}

/// The cluster of a block with a number, if there is one.
pub open spec fn cluster_at(gi: GrammarInputs, block: Seq<char>, i: int) -> Option<Cluster> {
    match order_map::look(reconcile::named(gi.graphs@), block) {
        Some(g) => if 0 <= i < g.clusters@.len() {
            Some(g.clusters@[i])
        } else {
            None
        },
        None => None,
    }
}

/// Where a component goes: a member of a cluster stands in its cluster and keeps its identifier;
/// any other component is resolved on its own.
pub open spec fn spot_of(
    s: Scene,
    origins: reconcile::OriginsV,
    block_name: Seq<char>,
    block: Block,
    refdes: Seq<char>,
    comp: Component,
) -> SpotV {
    let prior = reconcile::prior_v(s.prior@);
    match order_map::look(reconcile::named(s.gi.members@), refdes) {
        Some(m) => {
            let o = origin_at(origins, m.cluster_key@);
            SpotV {
                at: emit::snapped_pt(o.0 + m.local.x, o.1 + m.local.y),
                angle: m.angle,
                uuid: match reconcile::earlier(prior, reconcile::identity_of(refdes, comp.origin)) {
                    Some(p) => p.uuid,
                    None => None,
                },
                rev: reconcile::revision(
                    block,
                    comp,
                    cluster_at(*s.gi, block_name, m.cluster_idx as int),
                ),
                replaced: false,
            }
        },
        None => {
            let r = reconcile::resolved(
                prior,
                *s.auto,
                *s.relayout,
                block_name,
                block,
                refdes,
                comp,
            );
            SpotV { at: r.at, angle: r.angle, uuid: r.uuid, rev: r.rev, replaced: r.replaced }
        },
    }
}

fn find_cluster<'a>(gi: &'a GrammarInputs, block: &str, i: usize) -> (r: Option<&'a Cluster>)
    ensures
        match r {
            Some(c) => cluster_at(*gi, block@, i as int) == Some(*c),
            None => cluster_at(*gi, block@, i as int) is None,
        },
{
    match find_named(&gi.graphs, block) {
        Some(g) => if i < g.clusters.len() {
            Some(&g.clusters[i])
        } else {
            None
        },
        None => None,
    }
}

fn find_spot(
    s: &Scene,
    origins: &IndexMap<String, (i64, i64)>,
    block_name: &str,
    block: &Block,
    refdes: &str,
    comp: &Component,
) -> (r: Spot)
    ensures
        r@ == spot_of(
            *s,
            reconcile::origin_entries(*origins),
            block_name@,
            *block,
            refdes@,
            *comp,
        ),
{
    match find_named(&s.gi.members, refdes) {
        Some(m) => {
            let o: (i64, i64) = match get_origin(origins, m.cluster_key.as_str()) {
                Some(p) => p,
                None => (0, 0),
            };
            let uuid = match find_prior(s.prior, &Identity::of(refdes, &comp.origin)) {
                Some(p) => match &p.uuid {
                    Some(u) => Some(u.clone()),
                    None => None,
                },
                None => None,
            };
            let rev = reconcile::layout_rev(
                block,
                comp,
                find_cluster(s.gi, block_name, m.cluster_idx),
            );
            Spot {
                at: snap_sum(
                    o.0 as i128 + m.local.x as i128,
                    o.1 as i128 + m.local.y as i128,
                ),
                angle: m.angle,
                uuid,
                rev,
                replaced: false,
            }
        },
        None => {
            let p = resolve_placement(
                s.prior,
                s.auto,
                s.relayout,
                block_name,
                block,
                refdes,
                comp,
            );
            Spot { at: p.at, angle: p.angle, uuid: p.uuid, rev: p.rev, replaced: p.replaced }
        },
    }
}

/// The draft after the first `n` pins of a component. Pins that a cluster shows are not written,
/// but count for what drives what.
pub open spec fn all_pinned(
    d: DraftV,
    s: Scene,
    rails: RailsV,
    block: Seq<char>,
    refdes: Seq<char>,
    meta: Option<SymbolMeta>,
    pins: Seq<kernel::PinV>,
    n: int,
) -> Drawn
    decreases n,
{
    if n <= 0 {
        Ok(d)
    } else {
        match all_pinned(d, s, rails, block, refdes, meta, pins, n - 1) {
            Err(e) => Err(e),
            Ok(x) => {
                let (pin, net) = pins[n - 1];
                let y = if emit::pairs_v(s.gi.covered@).contains((refdes, pin)) {
                    Ok(x)
                } else {
                    pinned(x, *s.gallery, *s.provider, rails, block, refdes, pin, net)
                };
                match y {
                    Err(e) => Err(e),
                    Ok(z) => Ok(with_role(z, meta, pin, net)),
                }
            },
        }
    }
}

proof fn lemma_pinned_err(
    d: DraftV,
    s: Scene,
    rails: RailsV,
    block: Seq<char>,
    refdes: Seq<char>,
    meta: Option<SymbolMeta>,
    pins: Seq<kernel::PinV>,
    n: int,
    m: int,
)
    requires
        0 <= n <= m,
        all_pinned(d, s, rails, block, refdes, meta, pins, n) is Err,
    ensures
        all_pinned(d, s, rails, block, refdes, meta, pins, m) == all_pinned(
            d,
            s,
            rails,
            block,
            refdes,
            meta,
            pins,
            n,
        ),
    decreases m - n,
{
    if n < m {
        lemma_pinned_err(d, s, rails, block, refdes, meta, pins, n, m - 1);
    }
}

fn has_pair(v: &Vec<(String, String)>, a: &str, b: &str) -> (r: bool)
    ensures
        r == emit::pairs_v(v@).contains((a@, b@)),
{
    let ghost m = emit::pairs_v(v@);
    let mut i: usize = 0;
    while i < v.len()
        invariant
            i <= v@.len(),
            m == emit::pairs_v(v@),
            forall|k: int| 0 <= k < i ==> #[trigger] m[k] != (a@, b@),
        decreases v@.len() - i,
    {
        assert(m[i as int] == (v@[i as int].0@, v@[i as int].1@));
        if same(v[i].0.as_str(), a) && same(v[i].1.as_str(), b) {
            return true;
        }
        i += 1;
    }
    false
}

#[verifier::spinoff_prover]
#[verifier::rlimit(80)]
fn emit_pins(
    d: &mut Draft,
    s: &Scene,
    rails: &Rails,
    block: &str,
    refdes: &str,
    comp: &Component,
) -> (r: Result<(), EmitError>)
    ensures
        comes_out(
            r,
            final(d)@,
            all_pinned(
                old(d)@,
                *s,
                rails@,
                block@,
                refdes@,
                s.provider.found(comp.part@),
                kernel::all_pins(*comp),
                kernel::all_pins(*comp).len() as int,
            ),
        ),
{
    let ghost b = d@;
    let pins = list_pins(comp);
    let ghost pv = kernel::wanted_v(pins@);
    let meta = s.provider.symbol(comp.part.as_str());
    let ghost mv = opt_meta(meta);
    assert(mv == s.provider.found(comp.part@));
    let mut i: usize = 0;
    while i < pins.len()
        invariant
            i <= pins@.len(),
            b == old(d)@,
            pv == kernel::wanted_v(pins@),
            pv == kernel::all_pins(*comp),
            mv == opt_meta(meta),
            mv == s.provider.found(comp.part@),
            all_pinned(b, *s, rails@, block@, refdes@, mv, pv, i as int) == Ok::<
                DraftV,
                EmitErrorV,
            >(d@),
        decreases pins@.len() - i,
    {
        let pin = pins[i].pin.as_str();
        let net: Option<&str> = match &pins[i].net {
            Some(n) => Some(n.as_str()),
            None => None,
        };
        assert(pv[i as int].0 == pin@);
        if !has_pair(&s.gi.covered, refdes, pin) {
            match emit_pin(d, s.gallery, s.provider, rails, block, refdes, pin, net) {
                Ok(_) => {},
                Err(e) => {
                    proof {
                        lemma_pinned_err(
                            b,
                            *s,
                            rails@,
                            block@,
                            refdes@,
                            mv,
                            pv,
                            i + 1,
                            pv.len() as int,
                        );
                    }
                    return Err(e);
                },
            }
        }
        record_power_role(d, meta, pin, net);
        i += 1;
    }
    Ok(())
}

pub open spec fn value_of(c: Component) -> Seq<char> {
    match c.value {
        Some(v) => v@,
        None => ""@,
    }
}

/// The draft after one component.
pub open spec fn component_drawn(
    d: DraftV,
    s: Scene,
    origins: reconcile::OriginsV,
    rails: RailsV,
    block_name: Seq<char>,
    block: Block,
    refdes: Seq<char>,
    comp: Component,
) -> Drawn {
    let spot = spot_of(s, origins, block_name, block, refdes, comp);
    match s.gallery.found(comp.part@) {
        None => Err(EmitErrorV::NoSymbol(comp.part@)),
        Some(g) => {
            let w = d.w.with_symbol(
                g,
                refdes,
                value_of(comp),
                spot.at,
                spot.angle,
                reconcile::tags(block_name, comp.origin, spot.rev),
                spot.uuid,
            );
            all_pinned(
                DraftV {
                    w,
                    emitted: order_map::put(d.emitted, refdes, spot.at),
                    counts: if spot.replaced {
                        reconcile::counted(d.counts, block_name, 1)
                    } else {
                        d.counts
                    },
                    ..d
                },
                s,
                rails,
                block_name,
                refdes,
                s.provider.found(comp.part@),
                kernel::all_pins(comp),
                kernel::all_pins(comp).len() as int,
            )
        },
    }
}

fn put_at(v: &mut Vec<(String, Pt)>, k: &str, at: Pt)
    ensures
        reconcile::named(final(v)@) == order_map::put(reconcile::named(old(v)@), k@, at),
{
    let ghost m = reconcile::named(v@);
    let i = seek_name(v, k);
    if i < v.len() {
        v.set(i, (k.to_owned(), at));
        assert(reconcile::named(v@) =~= m.update(i as int, (k@, at)));
    } else {
        v.push((k.to_owned(), at));
        assert(reconcile::named(v@) =~= m.push((k@, at)));
    }
}

fn emit_component(
    d: &mut Draft,
    s: &Scene,
    origins: &IndexMap<String, (i64, i64)>,
    rails: &Rails,
    block_name: &str,
    block: &Block,
    refdes: &str,
    comp: &Component,
) -> (r: Result<(), EmitError>)
    ensures
        comes_out(
            r,
            final(d)@,
            component_drawn(
                old(d)@,
                *s,
                reconcile::origin_entries(*origins),
                rails@,
                block_name@,
                *block,
                refdes@,
                *comp,
            ),
        ),
{
    let ghost b = d@;
    let spot = find_spot(s, origins, block_name, block, refdes, comp);
    let ghost sv = spot@;
    if spot.replaced {
        reconcile::count_more(&mut d.counts, block_name, 1);
    }
    put_at(&mut d.emitted, refdes, spot.at);
    let value: &str = match &comp.value {
        Some(v) => v.as_str(),
        None => "",
    };
    let extra = ap_properties(block_name, &comp.origin, spot.rev.as_str());
    match d.w.add_symbol_full(
        s.gallery,
        comp.part.as_str(),
        refdes,
        value,
        spot.at,
        spot.angle,
        &extra,
        spot.uuid,
    ) {
        Ok(_) => {},
        Err(e) => return Err(e),
    }
    assert(d@ =~= DraftV {
        w: d@.w,
        emitted: order_map::put(b.emitted, refdes@, sv.at),
        counts: if sv.replaced {
            reconcile::counted(b.counts, block_name@, 1)
        } else {
            b.counts
        },
        ..b
    });
    emit_pins(d, s, rails, block_name, refdes, comp)
}

/// The draft after the first `n` components of a block.
pub open spec fn components_drawn(
    d: DraftV,
    s: Scene,
    origins: reconcile::OriginsV,
    rails: RailsV,
    block_name: Seq<char>,
    block: Block,
    n: int,
) -> Drawn
    decreases n,
{
    if n <= 0 {
        Ok(d)
    } else {
        match components_drawn(d, s, origins, rails, block_name, block, n - 1) {
            Err(e) => Err(e),
            Ok(x) => component_drawn(
                x,
                s,
                origins,
                rails,
                block_name,
                block,
                block.components@[n - 1].0@,
                block.components@[n - 1].1,
            ),
        }
    }
}

proof fn lemma_components_err(
    d: DraftV,
    s: Scene,
    origins: reconcile::OriginsV,
    rails: RailsV,
    block_name: Seq<char>,
    block: Block,
    n: int,
    m: int,
)
    requires
        0 <= n <= m,
        components_drawn(d, s, origins, rails, block_name, block, n) is Err,
    ensures
        components_drawn(d, s, origins, rails, block_name, block, m) == components_drawn(
            d,
            s,
            origins,
            rails,
            block_name,
            block,
            n,
        ),
    decreases m - n,
{
    if n < m {
        lemma_components_err(d, s, origins, rails, block_name, block, n, m - 1);
    }
}

/// The draft after the first `n` blocks.
pub open spec fn blocks_drawn(
    d: DraftV,
    s: Scene,
    origins: reconcile::OriginsV,
    rails: RailsV,
    blocks: Seq<(String, Block)>,
    n: int,
) -> Drawn
    decreases n,
{
    if n <= 0 {
        Ok(d)
    } else {
        match blocks_drawn(d, s, origins, rails, blocks, n - 1) {
            Err(e) => Err(e),
            Ok(x) => components_drawn(
                x,
                s,
                origins,
                rails,
                blocks[n - 1].0@,
                blocks[n - 1].1,
                blocks[n - 1].1.components@.len() as int,
            ),
        }
    }
}

proof fn lemma_blocks_err(
    d: DraftV,
    s: Scene,
    origins: reconcile::OriginsV,
    rails: RailsV,
    blocks: Seq<(String, Block)>,
    n: int,
    m: int,
)
    requires
        0 <= n <= m,
        blocks_drawn(d, s, origins, rails, blocks, n) is Err,
    ensures
        blocks_drawn(d, s, origins, rails, blocks, m) == blocks_drawn(
            d,
            s,
            origins,
            rails,
            blocks,
            n,
        ),
    decreases m - n,
{
    if n < m {
        lemma_blocks_err(d, s, origins, rails, blocks, n, m - 1);
    }
}

fn emit_block(
    d: &mut Draft,
    s: &Scene,
    origins: &IndexMap<String, (i64, i64)>,
    rails: &Rails,
    block_name: &str,
    block: &Block,
) -> (r: Result<(), EmitError>)
    ensures
        comes_out(
            r,
            final(d)@,
            components_drawn(
                old(d)@,
                *s,
                reconcile::origin_entries(*origins),
                rails@,
                block_name@,
                *block,
                block.components@.len() as int,
            ),
        ),
{
    let ghost b = d@;
    let ghost ov = reconcile::origin_entries(*origins);
    let mut i: usize = 0;
    while i < block.components.len()
        invariant
            i <= block.components@.len(),
            b == old(d)@,
            ov == reconcile::origin_entries(*origins),
            components_drawn(b, *s, ov, rails@, block_name@, *block, i as int) == Ok::<
                DraftV,
                EmitErrorV,
            >(d@),
        decreases block.components@.len() - i,
    {
        let c = &block.components[i];
        match emit_component(d, s, origins, rails, block_name, block, c.0.as_str(), &c.1) {
            Ok(_) => {},
            Err(e) => {
                proof {
                    lemma_components_err(
                        b,
                        *s,
                        ov,
                        rails@,
                        block_name@,
                        *block,
                        i + 1,
                        block.components@.len() as int,
                    );
                }
                return Err(e);
            },
        }
        i += 1;
    }
    Ok(())
}

pub(crate) fn emit_blocks(
    d: &mut Draft,
    s: &Scene,
    origins: &IndexMap<String, (i64, i64)>,
    rails: &Rails,
    blocks: &Vec<(String, Block)>,
) -> (r: Result<(), EmitError>)
    ensures
        comes_out(
            r,
            final(d)@,
            blocks_drawn(
                old(d)@,
                *s,
                reconcile::origin_entries(*origins),
                rails@,
                blocks@,
                blocks@.len() as int,
            ),
        ),
{
    let ghost b = d@;
    let ghost ov = reconcile::origin_entries(*origins);
    let mut i: usize = 0;
    while i < blocks.len()
        invariant
            i <= blocks@.len(),
            b == old(d)@,
            ov == reconcile::origin_entries(*origins),
            blocks_drawn(b, *s, ov, rails@, blocks@, i as int) == Ok::<DraftV, EmitErrorV>(d@),
        decreases blocks@.len() - i,
    {
        match emit_block(d, s, origins, rails, blocks[i].0.as_str(), &blocks[i].1) {
            Ok(_) => {},
            Err(e) => {
                proof {
                    lemma_blocks_err(b, *s, ov, rails@, blocks@, i + 1, blocks@.len() as int);
                }
                return Err(e);
            },
        }
        i += 1;
    }
    Ok(())
}

} // verus!
