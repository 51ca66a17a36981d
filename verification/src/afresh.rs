//! Writing a circuit afresh: where everything is placed anew, an earlier sheet leaves no trace but
//! in the count of what moved.
use crate::decorate;
use crate::emit;
use crate::emit::{Gallery, InstanceV, PinEnd, WriterV};
use crate::render;
use crate::retract;
use crate::geom::Pt;
use crate::kernel;
use crate::kernel::{Block, ClusterGeom, Component, Design, Provider, SymbolMeta};
use crate::order_map;
use crate::reconcile;
use crate::reconcile::{GrammarInputs, IdentityV, Layout, PriorV, Relayout};
use crate::reemit;
use crate::reemit::{DraftV, Drawn, RailsV, Scene};
use crate::wiring;
use crate::wiring::NetRoute;
use vstd::prelude::*;

verus! {

/// Whether two sheets differ in nothing but the identifiers of their symbols: each stands at the
/// same place, turned the same way.
pub open spec fn same_but_ids(x: WriterV, y: WriterV) -> bool {
    &&& y == (WriterV { instances: y.instances, ..x })
    &&& y.instances.len() == x.instances.len()
    &&& forall|i: int|
        0 <= i < x.instances.len() ==> #[trigger] y.instances[i] == (InstanceV {
            uuid: y.instances[i].uuid,
            ..x.instances[i]
        })
}

/// Whether two drafts differ in nothing but the count of what moved and, unless they are compared
/// strictly, the identifiers of symbols.
spec fn alike(a: DraftV, b: DraftV, strict: bool) -> bool {
    &&& b == (DraftV { counts: b.counts, w: b.w, ..a })
    &&& same_but_ids(a.w, b.w)
    &&& strict ==> b.w == a.w
}

spec fn alike_drawn(x: Drawn, y: Drawn, strict: bool) -> bool {
    match (x, y) {
        (Ok(a), Ok(b)) => alike(a, b, strict),
        (Err(e), Err(f)) => e == f,
        _ => false,
    }
}

/// Whether nothing more was counted as moved.
spec fn quiet(a: DraftV, x: Drawn) -> bool {
    match x {
        Ok(d) => d.counts == a.counts,
        Err(_) => true,
    }
}

spec fn step(a: DraftV, b: DraftV, x: Drawn, y: Drawn, strict: bool) -> bool {
    alike_drawn(x, y, strict) && quiet(a, x) && quiet(b, y)
}

spec fn step1(a: DraftV, b: DraftV, x: DraftV, y: DraftV, strict: bool) -> bool {
    alike(x, y, strict) && x.counts == a.counts && y.counts == b.counts
}

proof fn lemma_find_ref(x: Seq<InstanceV>, y: Seq<InstanceV>, refdes: Seq<char>, i: int)
    requires
        x.len() == y.len(),
        0 <= i,
        forall|k: int| 0 <= k < x.len() ==> (#[trigger] y[k]).refdes == x[k].refdes,
    ensures
        emit::find_ref(x, refdes, i) == emit::find_ref(y, refdes, i),
        emit::find_ref(x, refdes, i) >= i,
    decreases x.len() - i,
{
    if i < x.len() {
        assert(y[i].refdes == x[i].refdes);
        lemma_find_ref(x, y, refdes, i + 1);
    }
}

/// The ends of pins do not depend on identifiers.
proof fn lemma_pin_ends(x: WriterV, y: WriterV, g: Gallery, refdes: Seq<char>, pin: Seq<char>)
    requires
        same_but_ids(x, y),
    ensures
        emit::pin_ends(x, g, refdes, pin) == emit::pin_ends(y, g, refdes, pin),
{
    assert forall|k: int| 0 <= k < x.instances.len() implies (#[trigger] y.instances[k]).refdes
        == x.instances[k].refdes by {
    }
    lemma_find_ref(x.instances, y.instances, refdes, 0);
    let i = emit::find_ref(x.instances, refdes, 0);
    if i < x.instances.len() {
        let (a, b) = (x.instances[i], y.instances[i]);
        assert(b == (InstanceV { uuid: b.uuid, ..a }));
        if let (Ok(p), Ok(q)) = (emit::pin_ends(x, g, refdes, pin), emit::pin_ends(y, g, refdes, pin)) {
            assert(p =~= q);
        }
    }
}

/// One symbol more on either sheet.
proof fn lemma_symbol(
    strict: bool,
    x: WriterV,
    y: WriterV,
    g: emit::SymbolGeometry,
    refdes: Seq<char>,
    value: Seq<char>,
    at: Pt,
    angle: i32,
    extra: Seq<(Seq<char>, Seq<char>)>,
    u: Option<Seq<char>>,
    v: Option<Seq<char>>,
)
    requires
        same_but_ids(x, y),
        strict ==> x == y && u == v,
    ensures
        same_but_ids(
            x.with_symbol(g, refdes, value, at, angle, extra, u),
            y.with_symbol(g, refdes, value, at, angle, extra, v),
        ),
{
    let a = x.with_symbol(g, refdes, value, at, angle, extra, u);
    let b = y.with_symbol(g, refdes, value, at, angle, extra, v);
    assert forall|i: int| 0 <= i < a.instances.len() implies #[trigger] b.instances[i]
        == (InstanceV { uuid: b.instances[i].uuid, ..a.instances[i] }) by {
        if i < x.instances.len() {
            assert(b.instances[i] == y.instances[i]);
        }
    }
}

/// What is drawn in wires does not depend on symbols.
proof fn lemma_wire(x: WriterV, y: WriterV, p: Pt, q: Pt, net: Option<Seq<char>>)
    requires
        same_but_ids(x, y),
    ensures
        same_but_ids(x.with_wire(p, q, net), y.with_wire(p, q, net)),
{
}

#[verifier::rlimit(40)]
proof fn lemma_powered(
    strict: bool,
    a: DraftV,
    b: DraftV,
    g: Gallery,
    lib: Seq<char>,
    refdes: Seq<char>,
    pin: Seq<char>,
    net: Seq<char>,
    ends: Seq<PinEnd>,
    n: int,
)
    requires
        alike(a, b, strict),
    ensures
        step(
            a,
            b,
            reemit::powered(a, g, lib, refdes, pin, net, ends, n),
            reemit::powered(b, g, lib, refdes, pin, net, ends, n),
            strict,
        ),
    decreases n,
{
    if n > 0 {
        lemma_powered(strict, a, b, g, lib, refdes, pin, net, ends, n - 1);
        let c = reemit::powered(a, g, lib, refdes, pin, net, ends, n - 1);
        let d = reemit::powered(b, g, lib, refdes, pin, net, ends, n - 1);
        if let (Ok(x), Ok(y)) = (c, d) {
            let e = ends[n - 1];
            let down = crate::grammar::hangs_down(net);
            let end = reemit::stub_end(e);
            lemma_wire(x.w, y.w, e.at, end, None);
            lemma_wire(
                x.w.with_wire(e.at, end, None),
                y.w.with_wire(e.at, end, None),
                end,
                reemit::attach_of(e, down),
                None,
            );
            if let Some(s) = g.found(lib) {
                lemma_symbol(
                    strict,
                    reemit::with_stub(x.w, e, down),
                    reemit::with_stub(y.w, e, down),
                    s,
                    reemit::power_ref(refdes, pin, n - 1),
                    net,
                    reemit::attach_of(e, down),
                    reemit::power_angle(e.dir, down),
                    Seq::empty(),
                    None,
                    None,
                );
            }
        }
    }
}

proof fn lemma_signalled(
    strict: bool,
    a: DraftV,
    b: DraftV,
    block: Seq<char>,
    refdes: Seq<char>,
    pin: Seq<char>,
    net: Seq<char>,
    joins: Seq<Pt>,
    ends: Seq<PinEnd>,
    n: int,
)
    requires
        alike(a, b, strict),
    ensures
        step1(
            a,
            b,
            reemit::signalled(a, block, refdes, pin, net, joins, ends, n),
            reemit::signalled(b, block, refdes, pin, net, joins, ends, n),
            strict,
        ),
    decreases n,
{
    if n > 0 {
        lemma_signalled(strict, a, b, block, refdes, pin, net, joins, ends, n - 1);
    }
}

proof fn lemma_pinned(
    strict: bool,
    a: DraftV,
    b: DraftV,
    g: Gallery,
    p: Provider,
    rails: RailsV,
    block: Seq<char>,
    refdes: Seq<char>,
    pin: Seq<char>,
    net: Option<Seq<char>>,
)
    requires
        alike(a, b, strict),
    ensures
        step(
            a,
            b,
            reemit::pinned(a, g, p, rails, block, refdes, pin, net),
            reemit::pinned(b, g, p, rails, block, refdes, pin, net),
            strict,
        ),
{
    lemma_pin_ends(a.w, b.w, g, refdes, pin);
    if let Some(n) = net {
        if let Ok(v) = emit::pin_ends(a.w, g, refdes, pin) {
            lemma_powered(
                strict, a.using(n),
                b.using(n),
                g,
                reconcile::power_symbol(n, p),
                refdes,
                pin,
                n,
                v,
                v.len() as int,
            );
            lemma_signalled(
                strict, a.using(n),
                b.using(n),
                block,
                refdes,
                pin,
                n,
                rails.joins,
                v,
                v.len() as int,
            );
        }
    }
}

/// Whether everything is placed anew: that is asked for, or there is no earlier sheet.
pub open spec fn afresh(s: Scene) -> bool {
    *s.relayout == Relayout::All || s.prior@.len() == 0
}

/// Whether two scenes differ in nothing but the earlier sheet, and everything is placed anew.
pub open spec fn same_but_prior(s: Scene, t: Scene) -> bool {
    &&& *s.gallery == *t.gallery && *s.provider == *t.provider
    &&& *s.gi == *t.gi && *s.auto == *t.auto
    &&& afresh(s) && afresh(t)
}

/// Without an earlier sheet nothing stood anywhere.
proof fn lemma_no_prior(v: Seq<(IdentityV, PriorV)>, id: IdentityV)
    requires
        v.len() == 0,
    ensures
        reconcile::earlier(v, id) is None,
{
}

proof fn lemma_all_pinned(
    strict: bool,
    a: DraftV,
    b: DraftV,
    s: Scene,
    t: Scene,
    rails: RailsV,
    block: Seq<char>,
    refdes: Seq<char>,
    meta: Option<SymbolMeta>,
    pins: Seq<kernel::PinV>,
    n: int,
)
    requires
        alike(a, b, strict),
        same_but_prior(s, t),
    ensures
        step(
            a,
            b,
            reemit::all_pinned(a, s, rails, block, refdes, meta, pins, n),
            reemit::all_pinned(b, t, rails, block, refdes, meta, pins, n),
            strict,
        ),
    decreases n,
{
    if n > 0 {
        lemma_all_pinned(strict, a, b, s, t, rails, block, refdes, meta, pins, n - 1);
        let x = reemit::all_pinned(a, s, rails, block, refdes, meta, pins, n - 1);
        let y = reemit::all_pinned(b, t, rails, block, refdes, meta, pins, n - 1);
        if let (Ok(c), Ok(d)) = (x, y) {
            lemma_pinned(
                strict, c,
                d,
                *s.gallery,
                *s.provider,
                rails,
                block,
                refdes,
                pins[n - 1].0,
                pins[n - 1].1,
            );
        }
    }
}

pub open spec fn uuid_in(p: Option<PriorV>) -> Option<Seq<char>> {
    match p {
        Some(x) => x.uuid,
        None => None,
    }
}

/// Whether two sheets agree in the identifier of a component where it is a member of a cluster: such
/// components keep theirs.
pub open spec fn same_id(
    a: Seq<(IdentityV, PriorV)>,
    b: Seq<(IdentityV, PriorV)>,
    gi: GrammarInputs,
    refdes: Seq<char>,
    comp: Component,
) -> bool {
    order_map::look(reconcile::named(gi.members@), refdes) is Some ==> uuid_in(
        reconcile::earlier(a, reconcile::identity_of(refdes, comp.origin)),
    ) == uuid_in(reconcile::earlier(b, reconcile::identity_of(refdes, comp.origin)))
}

/// Whether two sheets agree in the identifiers of the components of a block that are members of
/// clusters.
pub open spec fn same_block_ids(
    a: Seq<(IdentityV, PriorV)>,
    b: Seq<(IdentityV, PriorV)>,
    gi: GrammarInputs,
    block: Block,
) -> bool {
    forall|i: int|
        0 <= i < block.components@.len() ==> same_id(
            a,
            b,
            gi,
            (#[trigger] block.components@[i]).0@,
            block.components@[i].1,
        )
}

/// Whether two sheets agree in the identifiers of the members of clusters.
pub open spec fn same_member_ids(
    a: Seq<(IdentityV, PriorV)>,
    b: Seq<(IdentityV, PriorV)>,
    gi: GrammarInputs,
    design: Design,
) -> bool {
    forall|i: int|
        0 <= i < design.blocks@.len() ==> same_block_ids(a, b, gi, (#[trigger] design.blocks@[i]).1)
}

#[verifier::rlimit(40)]
proof fn lemma_component(
    strict: bool,
    a: DraftV,
    b: DraftV,
    s: Scene,
    t: Scene,
    origins: reconcile::OriginsV,
    rails: RailsV,
    block_name: Seq<char>,
    block: Block,
    refdes: Seq<char>,
    comp: Component,
)
    requires
        alike(a, b, strict),
        same_but_prior(s, t),
        strict ==> same_id(
            reconcile::prior_v(s.prior@),
            reconcile::prior_v(t.prior@),
            *s.gi,
            refdes,
            comp,
        ),
    ensures
        alike_drawn(
            reemit::component_drawn(a, s, origins, rails, block_name, block, refdes, comp),
            reemit::component_drawn(b, t, origins, rails, block_name, block, refdes, comp),
            strict,
        ),
        s.prior@.len() == 0 ==> quiet(a, reemit::component_drawn(a, s, origins, rails, block_name, block, refdes, comp)),
        t.prior@.len() == 0 ==> quiet(b, reemit::component_drawn(b, t, origins, rails, block_name, block, refdes, comp)),
{
    let x = reemit::spot_of(s, origins, block_name, block, refdes, comp);
    let y = reemit::spot_of(t, origins, block_name, block, refdes, comp);
    let id = reconcile::identity_of(refdes, comp.origin);
    let p = reconcile::earlier(reconcile::prior_v(s.prior@), id);
    let q = reconcile::earlier(reconcile::prior_v(t.prior@), id);
    if s.prior@.len() == 0 {
        lemma_no_prior(reconcile::prior_v(s.prior@), id);
    }
    if t.prior@.len() == 0 {
        lemma_no_prior(reconcile::prior_v(t.prior@), id);
    }
    assert(x.at == y.at && x.angle == y.angle && x.rev == y.rev);
    assert(strict ==> x.uuid == y.uuid);
    if let Some(g) = s.gallery.found(comp.part@) {
        let extra = reconcile::tags(block_name, comp.origin, x.rev);
        let value = reemit::value_of(comp);
        let w = a.w.with_symbol(g, refdes, value, x.at, x.angle, extra, x.uuid);
        let v = b.w.with_symbol(g, refdes, value, x.at, x.angle, extra, y.uuid);
        lemma_symbol(strict, a.w, b.w, g, refdes, value, x.at, x.angle, extra, x.uuid, y.uuid);
        let c = DraftV {
            w,
            emitted: order_map::put(a.emitted, refdes, x.at),
            counts: if x.replaced {
                reconcile::counted(a.counts, block_name, 1)
            } else {
                a.counts
            },
            ..a
        };
        let d = DraftV {
            w: v,
            emitted: order_map::put(b.emitted, refdes, y.at),
            counts: if y.replaced {
                reconcile::counted(b.counts, block_name, 1)
            } else {
                b.counts
            },
            ..b
        };
        lemma_all_pinned(
            strict, c,
            d,
            s,
            t,
            rails,
            block_name,
            refdes,
            s.provider.found(comp.part@),
            kernel::all_pins(comp),
            kernel::all_pins(comp).len() as int,
        );
    }
}

proof fn lemma_components(
    strict: bool,
    a: DraftV,
    b: DraftV,
    s: Scene,
    t: Scene,
    origins: reconcile::OriginsV,
    rails: RailsV,
    block_name: Seq<char>,
    block: Block,
    n: int,
)
    requires
        alike(a, b, strict),
        same_but_prior(s, t),
        0 <= n <= block.components@.len(),
        strict ==> same_block_ids(
            reconcile::prior_v(s.prior@),
            reconcile::prior_v(t.prior@),
            *s.gi,
            block,
        ),
    ensures
        alike_drawn(
            reemit::components_drawn(a, s, origins, rails, block_name, block, n),
            reemit::components_drawn(b, t, origins, rails, block_name, block, n),
            strict,
        ),
        s.prior@.len() == 0 ==> quiet(a, reemit::components_drawn(a, s, origins, rails, block_name, block, n)),
        t.prior@.len() == 0 ==> quiet(b, reemit::components_drawn(b, t, origins, rails, block_name, block, n)),
    decreases n,
{
    if n > 0 {
        lemma_components(strict, a, b, s, t, origins, rails, block_name, block, n - 1);
        let x = reemit::components_drawn(a, s, origins, rails, block_name, block, n - 1);
        let y = reemit::components_drawn(b, t, origins, rails, block_name, block, n - 1);
        if let (Ok(c), Ok(d)) = (x, y) {
            lemma_component(
                strict, c,
                d,
                s,
                t,
                origins,
                rails,
                block_name,
                block,
                block.components@[n - 1].0@,
                block.components@[n - 1].1,
            );
        }
    }
}

proof fn lemma_blocks(
    strict: bool,
    a: DraftV,
    b: DraftV,
    s: Scene,
    t: Scene,
    origins: reconcile::OriginsV,
    rails: RailsV,
    blocks: Seq<(String, Block)>,
    n: int,
)
    requires
        alike(a, b, strict),
        same_but_prior(s, t),
        0 <= n <= blocks.len(),
        strict ==> forall|i: int|
            0 <= i < blocks.len() ==> same_block_ids(
                reconcile::prior_v(s.prior@),
                reconcile::prior_v(t.prior@),
                *s.gi,
                (#[trigger] blocks[i]).1,
            ),
    ensures
        alike_drawn(
            reemit::blocks_drawn(a, s, origins, rails, blocks, n),
            reemit::blocks_drawn(b, t, origins, rails, blocks, n),
            strict,
        ),
        s.prior@.len() == 0 ==> quiet(a, reemit::blocks_drawn(a, s, origins, rails, blocks, n)),
        t.prior@.len() == 0 ==> quiet(b, reemit::blocks_drawn(b, t, origins, rails, blocks, n)),
    decreases n,
{
    if n > 0 {
        lemma_blocks(strict, a, b, s, t, origins, rails, blocks, n - 1);
        let x = reemit::blocks_drawn(a, s, origins, rails, blocks, n - 1);
        let y = reemit::blocks_drawn(b, t, origins, rails, blocks, n - 1);
        if let (Ok(c), Ok(d)) = (x, y) {
            lemma_components(
                strict, c,
                d,
                s,
                t,
                origins,
                rails,
                blocks[n - 1].0@,
                blocks[n - 1].1,
                blocks[n - 1].1.components@.len() as int,
            );
        }
    }
}

proof fn lemma_wired(strict: bool, a: DraftV, b: DraftV, block: Seq<char>, g: ClusterGeom, o: (i64, i64), n: int)
    requires
        alike(a, b, strict),
    ensures
        step1(a, b, decorate::wired(a, block, g, o, n), decorate::wired(b, block, g, o, n), strict),
    decreases n,
{
    if n > 0 {
        lemma_wired(strict, a, b, block, g, o, n - 1);
    }
}

proof fn lemma_dotted(strict: bool, a: DraftV, b: DraftV, g: ClusterGeom, o: (i64, i64), n: int)
    requires
        alike(a, b, strict),
    ensures
        step1(a, b, decorate::dotted(a, g, o, n), decorate::dotted(b, g, o, n), strict),
    decreases n,
{
    if n > 0 {
        lemma_dotted(strict, a, b, g, o, n - 1);
    }
}

proof fn lemma_ports(
    strict: bool,
    a: DraftV,
    b: DraftV,
    gallery: Gallery,
    p: Provider,
    g: ClusterGeom,
    o: (i64, i64),
    n: int,
)
    requires
        alike(a, b, strict),
    ensures
        step(
            a,
            b,
            decorate::with_ports(a, gallery, p, g, o, n),
            decorate::with_ports(b, gallery, p, g, o, n),
            strict,
        ),
    decreases n,
{
    if n > 0 {
        lemma_ports(strict, a, b, gallery, p, g, o, n - 1);
    }
}

proof fn lemma_labelled(
    strict: bool,
    a: DraftV,
    b: DraftV,
    block: Seq<char>,
    g: ClusterGeom,
    o: (i64, i64),
    n: int,
)
    requires
        alike(a, b, strict),
    ensures
        step1(a, b, decorate::labelled(a, block, g, o, n), decorate::labelled(b, block, g, o, n), strict),
    decreases n,
{
    if n > 0 {
        lemma_labelled(strict, a, b, block, g, o, n - 1);
    }
}

proof fn lemma_cluster(
    strict: bool,
    a: DraftV,
    b: DraftV,
    gallery: Gallery,
    p: Provider,
    block: Seq<char>,
    g: ClusterGeom,
    o: (i64, i64),
)
    requires
        alike(a, b, strict),
    ensures
        step(
            a,
            b,
            decorate::cluster_drawn(a, gallery, p, block, g, o),
            decorate::cluster_drawn(b, gallery, p, block, g, o),
            strict,
        ),
{
    let n = g.wires@.len() as int;
    lemma_wired(strict, a, b, block, g, o, n);
    let (c, d) = (decorate::wired(a, block, g, o, n), decorate::wired(b, block, g, o, n));
    let m = g.junctions@.len() as int;
    lemma_dotted(strict, c, d, g, o, m);
    let (e, f) = (decorate::dotted(c, g, o, m), decorate::dotted(d, g, o, m));
    lemma_ports(strict, e, f, gallery, p, g, o, g.ports@.len() as int);
    let x = decorate::with_ports(e, gallery, p, g, o, g.ports@.len() as int);
    let y = decorate::with_ports(f, gallery, p, g, o, g.ports@.len() as int);
    if let (Ok(h), Ok(k)) = (x, y) {
        lemma_labelled(strict, h, k, block, g, o, g.labels@.len() as int);
    }
}

proof fn lemma_clusters(
    strict: bool,
    a: DraftV,
    b: DraftV,
    gallery: Gallery,
    p: Provider,
    origins: reconcile::OriginsV,
    block: Seq<char>,
    v: Seq<ClusterGeom>,
    n: int,
)
    requires
        alike(a, b, strict),
    ensures
        step(
            a,
            b,
            decorate::clusters_drawn(a, gallery, p, origins, block, v, n),
            decorate::clusters_drawn(b, gallery, p, origins, block, v, n),
            strict,
        ),
    decreases n,
{
    if n > 0 {
        lemma_clusters(strict, a, b, gallery, p, origins, block, v, n - 1);
        let x = decorate::clusters_drawn(a, gallery, p, origins, block, v, n - 1);
        let y = decorate::clusters_drawn(b, gallery, p, origins, block, v, n - 1);
        if let (Ok(c), Ok(d)) = (x, y) {
            lemma_cluster(
                strict, c,
                d,
                gallery,
                p,
                block,
                v[n - 1],
                reemit::origin_at(origins, reconcile::key_of_cluster(block, (n - 1) as nat)),
            );
        }
    }
}

proof fn lemma_all_clusters(
    strict: bool,
    a: DraftV,
    b: DraftV,
    gallery: Gallery,
    p: Provider,
    origins: reconcile::OriginsV,
    v: Seq<(String, Vec<ClusterGeom>)>,
    n: int,
)
    requires
        alike(a, b, strict),
    ensures
        step(
            a,
            b,
            decorate::all_clusters(a, gallery, p, origins, v, n),
            decorate::all_clusters(b, gallery, p, origins, v, n),
            strict,
        ),
    decreases n,
{
    if n > 0 {
        lemma_all_clusters(strict, a, b, gallery, p, origins, v, n - 1);
        let x = decorate::all_clusters(a, gallery, p, origins, v, n - 1);
        let y = decorate::all_clusters(b, gallery, p, origins, v, n - 1);
        if let (Ok(c), Ok(d)) = (x, y) {
            lemma_clusters(
                strict, c,
                d,
                gallery,
                p,
                origins,
                v[n - 1].0@,
                v[n - 1].1@,
                v[n - 1].1@.len() as int,
            );
        }
    }
}

proof fn lemma_joined_up(strict: bool, a: DraftV, b: DraftV, v: Seq<(Pt, Pt, String)>, n: int)
    requires
        alike(a, b, strict),
    ensures
        step1(a, b, decorate::joined_up(a, v, n), decorate::joined_up(b, v, n), strict),
    decreases n,
{
    if n > 0 {
        lemma_joined_up(strict, a, b, v, n - 1);
    }
}

#[verifier::rlimit(40)]
proof fn lemma_flags(
    strict: bool,
    a: DraftV,
    b: DraftV,
    g: Gallery,
    nets: Seq<Seq<char>>,
    column: int,
    n: int,
)
    requires
        alike(a, b, strict),
    ensures
        step(
            a,
            b,
            decorate::flags_drawn(a, g, nets, column, n),
            decorate::flags_drawn(b, g, nets, column, n),
            strict,
        ),
    decreases n,
{
    if n > 0 {
        lemma_flags(strict, a, b, g, nets, column, n - 1);
        let c = decorate::flags_drawn(a, g, nets, column, n - 1);
        let d = decorate::flags_drawn(b, g, nets, column, n - 1);
        if let (Ok(x), Ok(y)) = (c, d) {
            let name = "#FLG"@ + decorate::two_digits(n as nat);
            let net = nets[n - 1];
            if let Some(s) = g.found("power:PWR_FLAG"@) {
                let at = match order_map::look(x.attach, net) {
                    Some(at) => at,
                    None => emit::snapped_pt(column, 2_540_000 + 1_270_000 * (n - 1)),
                };
                let none = Seq::<(Seq<char>, Seq<char>)>::empty();
                lemma_symbol(strict, x.w, y.w, s, name, "PWR_FLAG"@, at, 0, none, None, None);
                lemma_pin_ends(
                    x.w.with_symbol(s, name, "PWR_FLAG"@, at, 0, none, None),
                    y.w.with_symbol(s, name, "PWR_FLAG"@, at, 0, none, None),
                    g,
                    name,
                    "1"@,
                );
            }
        }
    }
}

proof fn lemma_pins_labelled(
    x: WriterV,
    y: WriterV,
    g: Gallery,
    net: Seq<char>,
    v: Seq<reemit::SigV>,
    n: int,
)
    requires
        same_but_ids(x, y),
    ensures
        match (wiring::pins_labelled(x, g, net, v, n), wiring::pins_labelled(y, g, net, v, n)) {
            (Ok(a), Ok(b)) => same_but_ids(a, b),
            (Err(e), Err(f)) => e == f,
            _ => false,
        },
    decreases n,
{
    if n > 0 {
        lemma_pins_labelled(x, y, g, net, v, n - 1);
        let c = wiring::pins_labelled(x, g, net, v, n - 1);
        let d = wiring::pins_labelled(y, g, net, v, n - 1);
        if let (Ok(p), Ok(q)) = (c, d) {
            lemma_pin_ends(p, q, g, v[n - 1].refdes, v[n - 1].pin);
        }
    }
}

proof fn lemma_taps_labelled(x: WriterV, y: WriterV, net: Seq<char>, v: Seq<reemit::TapV>, n: int)
    requires
        same_but_ids(x, y),
    ensures
        same_but_ids(wiring::taps_labelled(x, net, v, n), wiring::taps_labelled(y, net, v, n)),
    decreases n,
{
    if n > 0 {
        lemma_taps_labelled(x, y, net, v, n - 1);
    }
}

proof fn lemma_path(x: WriterV, y: WriterV, net: Seq<char>, p: Seq<Pt>, n: int)
    requires
        same_but_ids(x, y),
    ensures
        same_but_ids(wiring::path_drawn(x, net, p, n), wiring::path_drawn(y, net, p, n)),
    decreases n,
{
    if n > 0 {
        lemma_path(x, y, net, p, n - 1);
    }
}

proof fn lemma_paths(x: WriterV, y: WriterV, net: Seq<char>, v: Seq<Vec<Pt>>, n: int)
    requires
        same_but_ids(x, y),
    ensures
        same_but_ids(wiring::paths_drawn(x, net, v, n), wiring::paths_drawn(y, net, v, n)),
    decreases n,
{
    if n > 0 {
        lemma_paths(x, y, net, v, n - 1);
        lemma_path(
            wiring::paths_drawn(x, net, v, n - 1),
            wiring::paths_drawn(y, net, v, n - 1),
            net,
            v[n - 1]@,
            wiring::stretches(v[n - 1]@),
        );
    }
}

proof fn lemma_dots(x: WriterV, y: WriterV, v: Seq<Pt>, n: int)
    requires
        same_but_ids(x, y),
    ensures
        same_but_ids(wiring::dots_drawn(x, v, n), wiring::dots_drawn(y, v, n)),
    decreases n,
{
    if n > 0 {
        lemma_dots(x, y, v, n - 1);
    }
}

proof fn lemma_sig_tees(x: WriterV, y: WriterV, net: Seq<char>, v: Seq<reemit::SigV>, n: int)
    requires
        same_but_ids(x, y),
    ensures
        same_but_ids(wiring::sig_tees(x, net, v, n), wiring::sig_tees(y, net, v, n)),
    decreases n,
{
    if n > 0 {
        lemma_sig_tees(x, y, net, v, n - 1);
    }
}

proof fn lemma_tap_tees(x: WriterV, y: WriterV, net: Seq<char>, v: Seq<reemit::TapV>, n: int)
    requires
        same_but_ids(x, y),
    ensures
        same_but_ids(wiring::tap_tees(x, net, v, n), wiring::tap_tees(y, net, v, n)),
    decreases n,
{
    if n > 0 {
        lemma_tap_tees(x, y, net, v, n - 1);
    }
}

proof fn lemma_net(
    strict: bool,
    a: DraftV,
    b: DraftV,
    g: Gallery,
    routes: Seq<NetRoute>,
    net: Seq<char>,
)
    requires
        alike(a, b, strict),
    ensures
        step(
            a,
            b,
            wiring::net_drawn(a, g, routes, net),
            wiring::net_drawn(b, g, routes, net),
            strict,
        ),
{
    let i = wiring::route_at(routes, net, 0);
    let (k, m) = (a.signals.len() as int, a.taps.len() as int);
    if wiring::may_wire(a, net) && i < routes.len() {
        let r = routes[i];
        let n = r.paths@.len() as int;
        lemma_paths(a.w, b.w, net, r.paths@, n);
        let (c, d) = (
            wiring::paths_drawn(a.w, net, r.paths@, n),
            wiring::paths_drawn(b.w, net, r.paths@, n),
        );
        let j = r.junctions@;
        lemma_dots(c, d, j, j.len() as int);
        let (e, f) = (wiring::dots_drawn(c, j, j.len() as int), wiring::dots_drawn(d, j, j.len() as int));
        lemma_sig_tees(e, f, net, a.signals, k);
        lemma_tap_tees(
            wiring::sig_tees(e, net, a.signals, k),
            wiring::sig_tees(f, net, a.signals, k),
            net,
            a.taps,
            m,
        );
    } else {
        lemma_pins_labelled(a.w, b.w, g, net, a.signals, k);
        let x = wiring::pins_labelled(a.w, g, net, a.signals, k);
        let y = wiring::pins_labelled(b.w, g, net, a.signals, k);
        if let (Ok(p), Ok(q)) = (x, y) {
            lemma_taps_labelled(p, q, net, a.taps, m);
        }
    }
}

proof fn lemma_nets(
    strict: bool,
    a: DraftV,
    b: DraftV,
    g: Gallery,
    routes: Seq<NetRoute>,
    nets: Seq<Seq<char>>,
    n: int,
)
    requires
        alike(a, b, strict),
    ensures
        step(
            a,
            b,
            wiring::nets_drawn(a, g, routes, nets, n),
            wiring::nets_drawn(b, g, routes, nets, n),
            strict,
        ),
    decreases n,
{
    if n > 0 {
        lemma_nets(strict, a, b, g, routes, nets, n - 1);
        let c = wiring::nets_drawn(a, g, routes, nets, n - 1);
        let d = wiring::nets_drawn(b, g, routes, nets, n - 1);
        if let (Ok(x), Ok(y)) = (c, d) {
            lemma_net(strict, x, y, g, routes, nets[n - 1]);
        }
    }
}

/// Whether an earlier sheet has no say: all is placed anew, or there is none.
spec fn no_say(a: Seq<(IdentityV, PriorV)>, relayout: Relayout) -> bool {
    relayout == Relayout::All || a.len() == 0
}

proof fn lemma_origins_in(
    s: reconcile::OriginState,
    t: reconcile::OriginState,
    block_name: Seq<char>,
    block: Block,
    clusters: Seq<kernel::Cluster>,
    members: Seq<(String, reconcile::MemberInfo)>,
    auto: Layout,
    a: Seq<(IdentityV, PriorV)>,
    b: Seq<(IdentityV, PriorV)>,
    ra: Relayout,
    rb: Relayout,
    n: int,
)
    requires
        s.origins == t.origins,
        no_say(a, ra),
        no_say(b, rb),
    ensures
        reconcile::origins_in(s, block_name, block, clusters, members, auto, a, ra, n).origins
            == reconcile::origins_in(
            t,
            block_name,
            block,
            clusters,
            members,
            auto,
            b,
            rb,
            n,
        ).origins,
        b.len() == 0 ==> reconcile::origins_in(
            t,
            block_name,
            block,
            clusters,
            members,
            auto,
            b,
            rb,
            n,
        ).counts == t.counts,
    decreases n,
{
    if n > 0 {
        lemma_origins_in(s, t, block_name, block, clusters, members, auto, a, b, ra, rb, n - 1);
        let c = clusters[n - 1];
        if c.members@.len() > 0 {
            let rep = c.members@[0]@;
            if let Some(comp) = order_map::look(reconcile::named(block.components@), rep) {
                let id = reconcile::identity_of(rep, comp.origin);
                if a.len() == 0 {
                    lemma_no_prior(a, id);
                }
                if b.len() == 0 {
                    lemma_no_prior(b, id);
                }
            }
        }
    }
}

proof fn lemma_origins(
    design: Design,
    gi: GrammarInputs,
    auto: Layout,
    a: Seq<(IdentityV, PriorV)>,
    b: Seq<(IdentityV, PriorV)>,
    ra: Relayout,
    rb: Relayout,
    n: int,
)
    requires
        no_say(a, ra),
        no_say(b, rb),
    ensures
        reconcile::origins_of(design, gi, auto, a, ra, n).origins == reconcile::origins_of(
            design,
            gi,
            auto,
            b,
            rb,
            n,
        ).origins,
        b.len() == 0 ==> reconcile::origins_of(design, gi, auto, b, rb, n).counts.len() == 0,
    decreases n,
{
    if n > 0 {
        lemma_origins(design, gi, auto, a, b, ra, rb, n - 1);
        let g = gi.graphs@[n - 1];
        if let Some(k) = order_map::look(reconcile::named(design.blocks@), g.0@) {
            lemma_origins_in(
                reconcile::origins_of(design, gi, auto, a, ra, n - 1),
                reconcile::origins_of(design, gi, auto, b, rb, n - 1),
                g.0@,
                k,
                g.1.clusters@,
                gi.members@,
                auto,
                a,
                b,
                ra,
                rb,
                g.1.clusters@.len() as int,
            );
        }
    }
}

#[verifier::rlimit(40)]
proof fn lemma_drafted(strict: bool, s: Scene, t: Scene, rails: RailsV, design: Design)
    requires
        same_but_prior(s, t),
        strict ==> same_member_ids(
            reconcile::prior_v(s.prior@),
            reconcile::prior_v(t.prior@),
            *s.gi,
            design,
        ),
    ensures
        alike_drawn(wiring::drafted(s, rails, design), wiring::drafted(t, rails, design), strict),
        t.prior@.len() == 0 ==> (match wiring::drafted(t, rails, design) {
            Ok(d) => d.counts.len() == 0,
            Err(_) => true,
        }),
{
    let (pa, pb) = (reconcile::prior_v(s.prior@), reconcile::prior_v(t.prior@));
    let n = s.gi.graphs@.len() as int;
    let (ra, rb) = (*s.relayout, *t.relayout);
    lemma_origins(design, *s.gi, *s.auto, pa, pb, ra, rb, n);
    let o = reconcile::origins_of(design, *s.gi, *s.auto, pa, ra, n);
    let q = reconcile::origins_of(design, *s.gi, *s.auto, pb, rb, n);
    let m = design.blocks@.len() as int;
    let (fa, fb) = (wiring::fresh_draft(o.counts), wiring::fresh_draft(q.counts));
    lemma_blocks(strict, fa, fb, s, t, o.origins, rails, design.blocks@, m);
    let x = reemit::blocks_drawn(fa, s, o.origins, rails, design.blocks@, m);
    let y = reemit::blocks_drawn(fb, t, o.origins, rails, design.blocks@, m);
    if let (Ok(a), Ok(b)) = (x, y) {
        let v = s.gi.geoms@;
        let k = v.len() as int;
        lemma_all_clusters(strict, a, b, *s.gallery, *s.provider, o.origins, v, k);
        let c = decorate::all_clusters(a, *s.gallery, *s.provider, o.origins, v, k);
        let d = decorate::all_clusters(b, *s.gallery, *s.provider, o.origins, v, k);
        if let (Ok(e), Ok(f)) = (c, d) {
            let j = s.auto.joins@;
            lemma_joined_up(strict, e, f, j, j.len() as int);
            let g = decorate::joined_up(e, j, j.len() as int);
            let h = decorate::joined_up(f, j, j.len() as int);
            let nets = decorate::flagged(g, design.nets@);
            assert(decorate::flagged(h, design.nets@) == nets);
            lemma_flags(
                strict, g,
                h,
                *s.gallery,
                nets,
                decorate::rightmost(g.emitted, g.emitted.len() as int) + 5_080_000,
                nets.len() as int,
            );
        }
    }
}

// ---------------------------------------------------------------- the finished sheet
proof fn lemma_power_points(x: Seq<InstanceV>, y: Seq<InstanceV>, n: int)
    requires
        n <= x.len(),
        x.len() == y.len(),
        forall|i: int|
            0 <= i < x.len() ==> #[trigger] y[i] == (InstanceV { uuid: y[i].uuid, ..x[i] }),
    ensures
        retract::power_points(x, n) == retract::power_points(y, n),
    decreases n,
{
    if n > 0 {
        lemma_power_points(x, y, n - 1);
        assert(y[n - 1] == (InstanceV { uuid: y[n - 1].uuid, ..x[n - 1] }));
    }
}

spec fn settle_alike(a: retract::SettleV, b: retract::SettleV, strict: bool) -> bool {
    &&& same_but_ids(a.w, b.w)
    &&& strict ==> a.w == b.w
    &&& a.pts == b.pts
    &&& a.runs == b.runs
}

proof fn lemma_settled(a: retract::SettleV, b: retract::SettleV, ord: Seq<int>, strict: bool, n: int)
    requires
        settle_alike(a, b, strict),
    ensures
        settle_alike(retract::settled(a, ord, n), retract::settled(b, ord, n), strict),
    decreases n,
{
    if n > 0 {
        lemma_settled(a, b, ord, strict, n - 1);
    }
}

proof fn lemma_retracted(x: WriterV, y: WriterV, strict: bool)
    requires
        same_but_ids(x, y),
        strict ==> x == y,
    ensures
        same_but_ids(retract::retracted(x), retract::retracted(y)),
        strict ==> retract::retracted(x) == retract::retracted(y),
{
    lemma_power_points(x.instances, y.instances, x.instances.len() as int);
    lemma_settled(
        retract::settle_start(x),
        retract::settle_start(y),
        retract::key_order(retract::label_keys(x.labels)),
        strict,
        x.labels.len() as int,
    );
}

proof fn lemma_frames(
    x: WriterV,
    y: WriterV,
    emitted: Seq<(Seq<char>, Pt)>,
    sizes: Seq<(String, (i64, i64))>,
    blocks: Seq<(String, Block)>,
    strict: bool,
    n: int,
)
    requires
        same_but_ids(x, y),
        strict ==> x == y,
    ensures
        same_but_ids(
            wiring::frames_drawn(x, emitted, sizes, blocks, n),
            wiring::frames_drawn(y, emitted, sizes, blocks, n),
        ),
        strict ==> wiring::frames_drawn(x, emitted, sizes, blocks, n) == wiring::frames_drawn(
            y,
            emitted,
            sizes,
            blocks,
            n,
        ),
    decreases n,
{
    if n > 0 {
        lemma_frames(x, y, emitted, sizes, blocks, strict, n - 1);
    }
}

/// The sheet whose text is written for a circuit, or why there is none.
pub open spec fn finished(s: Scene, design: Design, routes: Seq<NetRoute>) -> Result<
    WriterV,
    emit::EmitErrorV,
> {
    match wiring::drafted(s, wiring::rails_of(design, *s.auto), design) {
        Err(e) => Err(e),
        Ok(d) => {
            let nets = wiring::open_nets(d);
            match wiring::nets_drawn(d, *s.gallery, routes, nets, nets.len() as int) {
                Err(e) => Err(e),
                Ok(x) => {
                    let blocks = design.blocks@;
                    let w = wiring::frames_drawn(
                        x.w,
                        x.emitted,
                        s.gi.sizes@,
                        blocks,
                        blocks.len() as int,
                    );
                    Ok(retract::retracted(retract::retracted(w)))
                },
            }
        },
    }
}

#[verifier::rlimit(40)]
proof fn lemma_finished(s: Scene, t: Scene, design: Design, routes: Seq<NetRoute>, strict: bool)
    requires
        same_but_prior(s, t),
        strict ==> same_member_ids(
            reconcile::prior_v(s.prior@),
            reconcile::prior_v(t.prior@),
            *s.gi,
            design,
        ),
    ensures
        match (finished(s, design, routes), finished(t, design, routes)) {
            (Ok(x), Ok(y)) => same_but_ids(x, y),
            (Err(e), Err(f)) => e == f,
            _ => false,
        },
        match (wiring::emitted(s, design, routes), wiring::emitted(t, design, routes)) {
            (Ok(x), Ok(y)) => {
                &&& x.sch == render::document(finished(s, design, routes)->Ok_0)
                &&& y.sch == render::document(finished(t, design, routes)->Ok_0)
                &&& strict ==> x.sch == y.sch && x.layout_warnings == y.layout_warnings
                &&& t.prior@.len() == 0 ==> y.relayout_blocks.len() == 0
            },
            (Err(e), Err(f)) => e == f,
            _ => false,
        },
{
    let rails = wiring::rails_of(design, *s.auto);
    lemma_drafted(strict, s, t, rails, design);
    if let (Ok(a), Ok(b)) = (
        wiring::drafted(s, rails, design),
        wiring::drafted(t, rails, design),
    ) {
        let nets = wiring::open_nets(a);
        assert(wiring::open_nets(b) == nets);
        lemma_nets(strict, a, b, *s.gallery, routes, nets, nets.len() as int);
        let x = wiring::nets_drawn(a, *s.gallery, routes, nets, nets.len() as int);
        let y = wiring::nets_drawn(b, *s.gallery, routes, nets, nets.len() as int);
        if let (Ok(c), Ok(d)) = (x, y) {
            let blocks = design.blocks@;
            let n = blocks.len() as int;
            lemma_frames(c.w, d.w, c.emitted, s.gi.sizes@, blocks, strict, n);
            let u = wiring::frames_drawn(c.w, c.emitted, s.gi.sizes@, blocks, n);
            let v = wiring::frames_drawn(d.w, d.emitted, s.gi.sizes@, blocks, n);
            lemma_retracted(u, v, strict);
            lemma_retracted(retract::retracted(u), retract::retracted(v), strict);
        }
    }
}

/// Where everything is placed anew, every symbol stands where it would stand without an earlier
/// sheet, and is turned the same way: the two sheets differ in nothing but identifiers. Without an
/// earlier sheet nothing counts as moved.
pub proof fn placing_all_anew_is_placing_without_a_sheet(
    s: Scene,
    t: Scene,
    design: Design,
    routes: Seq<NetRoute>,
)
    requires
        *s.gallery == *t.gallery,
        *s.provider == *t.provider,
        *s.gi == *t.gi,
        *s.auto == *t.auto,
        *s.relayout == Relayout::All,
        *t.relayout == Relayout::Keep,
        t.prior@.len() == 0,
    ensures
        match (finished(s, design, routes), finished(t, design, routes)) {
            (Ok(x), Ok(y)) => same_but_ids(x, y),
            (Err(e), Err(f)) => e == f,
            _ => false,
        },
        match (wiring::emitted(s, design, routes), wiring::emitted(t, design, routes)) {
            (Ok(x), Ok(y)) => {
                &&& x.sch == render::document(finished(s, design, routes)->Ok_0)
                &&& y.sch == render::document(finished(t, design, routes)->Ok_0)
                &&& y.relayout_blocks.len() == 0
            },
            (Err(e), Err(f)) => e == f,
            _ => false,
        },
{
    lemma_finished(s, t, design, routes, false);
}

/// Where everything is placed anew, what is written does not depend on an earlier sheet: the text
/// and the warnings are the same whatever that sheet was, or without one, as long as the members of
/// clusters, which keep their identifiers, had the same ones.
pub proof fn placing_all_anew_forgets_the_sheet(
    s: Scene,
    t: Scene,
    design: Design,
    routes: Seq<NetRoute>,
)
    requires
        same_but_prior(s, t),
        same_member_ids(
            reconcile::prior_v(s.prior@),
            reconcile::prior_v(t.prior@),
            *s.gi,
            design,
        ),
    ensures
        match (wiring::emitted(s, design, routes), wiring::emitted(t, design, routes)) {
            (Ok(x), Ok(y)) => x.sch == y.sch && x.layout_warnings == y.layout_warnings,
            (Err(e), Err(f)) => e == f,
            _ => false,
        },
{
    lemma_finished(s, t, design, routes, true);
}

} // verus!
