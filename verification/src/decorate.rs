//! What is drawn around the components: the wiring of clusters, flags, nets and frames.
use crate::emit;
use crate::emit::{snap_sum, Dir, EmitError, EmitErrorV, Gallery};
use crate::emit::WriterV;
use crate::flex::cut_wide;
use crate::geom;
use crate::geom::Pt;
use crate::kernel::{ClusterGeom, Provider};
use crate::names;
use crate::names::{add_distinct, has_name};
use crate::order_map;
use crate::reconcile;
use crate::reconcile::{cluster_key, find_named, get_origin, power_lib_id, GrammarInputs, Layout};
use crate::reemit;
use crate::reemit::{Draft, DraftV, Drawn, Tap, TapV};
use crate::text;
use crate::text::{same, Line};
use indexmap::IndexMap;
use vstd::prelude::*;

verus! {

// ---------------------------------------------------------------- clusters
/// A point of a cluster on the sheet.
pub open spec fn shifted(p: Pt, o: (i64, i64)) -> Pt {
    reemit::cut_pt(p.x + o.0, p.y + o.1)
}

fn shift(p: Pt, o: (i64, i64)) -> (r: Pt)
    ensures
        r == shifted(p, o),
{
    Pt { x: cut_wide(p.x as i128 + o.0 as i128), y: cut_wide(p.y as i128 + o.1 as i128) }
}

/// The label from `i` on whose stub a wire of a net is.
pub open spec fn stub_label(
    labels: Seq<(String, Pt, Dir)>,
    a: Pt,
    b: Pt,
    net: Seq<char>,
    i: int,
) -> int
    decreases labels.len() - i,
{
    if i < 0 || i >= labels.len() || (labels[i].0@ == net && (a == labels[i].1 || b
        == labels[i].1)) {
        i
    } else {
        stub_label(labels, a, b, net, i + 1)
    }
}

/// The draft after a wire of a cluster: drawn, or kept back with the label whose stub it is.
pub open spec fn wire_step(
    d: DraftV,
    block: Seq<char>,
    labels: Seq<(String, Pt, Dir)>,
    o: (i64, i64),
    wire: (Pt, Pt, String),
) -> DraftV {
    let (a, b, net) = (wire.0, wire.1, wire.2@);
    let i = stub_label(labels, a, b, net, 0);
    if i < labels.len() {
        let lp = labels[i].1;
        let tap = if a == lp {
            b
        } else {
            a
        };
        d.tapped(
            TapV { net, tap: shifted(tap, o), label: shifted(lp, o), dir: labels[i].2 },
        ).touching(net, block).using(net)
    } else {
        d.on(d.w.with_wire(shifted(a, o), shifted(b, o), Some(net)))
    }
}

pub open spec fn wired(d: DraftV, block: Seq<char>, g: ClusterGeom, o: (i64, i64), n: int) -> DraftV
    decreases n,
{
    if n <= 0 {
        d
    } else {
        wire_step(wired(d, block, g, o, n - 1), block, g.labels@, o, g.wires@[n - 1])
    }
}

pub open spec fn dotted(d: DraftV, g: ClusterGeom, o: (i64, i64), n: int) -> DraftV
    decreases n,
{
    if n <= 0 {
        d
    } else {
        let x = dotted(d, g, o, n - 1);
        x.on(x.w.with_junction(shifted(g.junctions@[n - 1], o)))
    }
}

/// A number with at least two digits.
pub open spec fn two_digits(n: nat) -> Seq<char> {
    if n < 10 {
        "0"@ + text::digits(n)
    } else {
        text::digits(n)
    }
}

fn write_two(n: u128) -> (r: String)
    ensures
        r@ == two_digits(n as nat),
{
    if n < 10 {
        Line::of("0").count(n).done()
    } else {
        text::decimal_u128(n)
    }
}

pub open spec fn next_port(n: u64) -> u64 {
    if n < u64::MAX {
        (n + 1) as u64
    } else {
        n
    }
}

/// The draft after the power symbols of a cluster.
pub open spec fn with_ports(
    d: DraftV,
    gallery: Gallery,
    p: Provider,
    g: ClusterGeom,
    o: (i64, i64),
    n: int,
) -> Drawn
    decreases n,
{
    if n <= 0 {
        Ok(d)
    } else {
        match with_ports(d, gallery, p, g, o, n - 1) {
            Err(e) => Err(e),
            Ok(x) => {
                let net = g.ports@[n - 1].0@;
                let at = shifted(g.ports@[n - 1].1, o);
                let no = next_port(x.ports);
                let lib = reconcile::power_symbol(net, p);
                match gallery.found(lib) {
                    None => Err(EmitErrorV::NoSymbol(lib)),
                    Some(s) => Ok(
                        (DraftV {
                            w: x.w.with_symbol(
                                s,
                                "#PWR_CL"@ + two_digits(no as nat),
                                net,
                                at,
                                0,
                                Seq::empty(),
                                None,
                            ),
                            ports: no,
                            ..x
                        }).using(net).attached(net, at),
                    ),
                }
            },
        }
    }
}

pub open spec fn has_tap(v: Seq<TapV>, net: Seq<char>, at: Pt) -> bool {
    exists|i: int| 0 <= i < v.len() && (#[trigger] v[i]).net == net && v[i].label == at
}

/// The draft after the labels of a cluster that no stub belongs to.
pub open spec fn labelled(d: DraftV, block: Seq<char>, g: ClusterGeom, o: (i64, i64), n: int) -> DraftV
    decreases n,
{
    if n <= 0 {
        d
    } else {
        let x = labelled(d, block, g, o, n - 1);
        let net = g.labels@[n - 1].0@;
        let at = shifted(g.labels@[n - 1].1, o);
        let y = if has_tap(x.taps, net, at) {
            x
        } else {
            x.tapped(TapV { net, tap: at, label: at, dir: g.labels@[n - 1].2 }).touching(net, block)
        };
        y.using(net)
    }
}

/// The draft after a cluster.
pub open spec fn cluster_drawn(
    d: DraftV,
    gallery: Gallery,
    p: Provider,
    block: Seq<char>,
    g: ClusterGeom,
    o: (i64, i64),
) -> Drawn {
    let a = dotted(
        wired(d, block, g, o, g.wires@.len() as int),
        g,
        o,
        g.junctions@.len() as int,
    );
    match with_ports(a, gallery, p, g, o, g.ports@.len() as int) {
        Err(e) => Err(e),
        Ok(x) => Ok(labelled(x, block, g, o, g.labels@.len() as int)),
    }
}

fn same_pt(a: Pt, b: Pt) -> (r: bool)
    ensures
        r == (a == b),
{
    a.x == b.x && a.y == b.y
}

fn draw_wires(d: &mut Draft, block: &str, g: &ClusterGeom, o: (i64, i64))
    ensures
        final(d)@ == wired(old(d)@, block@, *g, o, g.wires@.len() as int),
{
    let ghost b = d@;
    let mut i: usize = 0;
    while i < g.wires.len()
        invariant
            i <= g.wires@.len(),
            d@ == wired(b, block@, *g, o, i as int),
        decreases g.wires@.len() - i,
    {
        let (pa, pb) = (g.wires[i].0, g.wires[i].1);
        let net = g.wires[i].2.as_str();
        let mut k: usize = 0;
        while k < g.labels.len() && !(same(g.labels[k].0.as_str(), net) && (same_pt(
            pa,
            g.labels[k].1,
        ) || same_pt(pb, g.labels[k].1)))
            invariant
                k <= g.labels@.len(),
                stub_label(g.labels@, pa, pb, net@, 0) == stub_label(
                    g.labels@,
                    pa,
                    pb,
                    net@,
                    k as int,
                ),
            decreases g.labels@.len() - k,
        {
            k += 1;
        }
        let ghost x = d@;
        if k < g.labels.len() {
            let lp = g.labels[k].1;
            let tap = if same_pt(pa, lp) { pb } else { pa };
            d.push_tap(net, shift(tap, o), shift(lp, o), g.labels[k].2);
            d.touch(net, block);
            d.use_net(net);
        } else {
            d.w.add_wire_on_net(shift(pa, o), shift(pb, o), net);
            assert(d@ =~= x.on(d@.w));
        }
        i += 1;
    }
}

fn draw_dots(d: &mut Draft, g: &ClusterGeom, o: (i64, i64))
    ensures
        final(d)@ == dotted(old(d)@, *g, o, g.junctions@.len() as int),
{
    let ghost b = d@;
    let mut i: usize = 0;
    while i < g.junctions.len()
        invariant
            i <= g.junctions@.len(),
            d@ == dotted(b, *g, o, i as int),
        decreases g.junctions@.len() - i,
    {
        let ghost x = d@;
        d.w.add_junction(shift(g.junctions[i], o));
        assert(d@ =~= x.on(d@.w));
        i += 1;
    }
}

proof fn lemma_with_ports_err(
    d: DraftV,
    gallery: Gallery,
    p: Provider,
    g: ClusterGeom,
    o: (i64, i64),
    n: int,
    m: int,
)
    requires
        0 <= n <= m,
        with_ports(d, gallery, p, g, o, n) is Err,
    ensures
        with_ports(d, gallery, p, g, o, m) == with_ports(d, gallery, p, g, o, n),
    decreases m - n,
{
    if n < m {
        lemma_with_ports_err(d, gallery, p, g, o, n, m - 1);
    }
}

fn draw_ports(d: &mut Draft, gallery: &Gallery, provider: &Provider, g: &ClusterGeom, o: (i64, i64)) -> (r:
    Result<(), EmitError>)
    ensures
        reemit::comes_out(
            r,
            final(d)@,
            with_ports(old(d)@, *gallery, *provider, *g, o, g.ports@.len() as int),
        ),
{
    let ghost b = d@;
    let mut i: usize = 0;
    while i < g.ports.len()
        invariant
            i <= g.ports@.len(),
            b == old(d)@,
            with_ports(b, *gallery, *provider, *g, o, i as int) == Ok::<DraftV, EmitErrorV>(d@),
        decreases g.ports@.len() - i,
    {
        let ghost x = d@;
        let net = g.ports[i].0.as_str();
        let at = shift(g.ports[i].1, o);
        let no: u64 = if d.ports < u64::MAX { d.ports + 1 } else { d.ports };
        let lib = power_lib_id(net, provider);
        let two = write_two(no as u128);
        let name = Line::of("#PWR_CL").add(two.as_str()).done();
        match d.w.add_power_symbol(gallery, lib.as_str(), name.as_str(), net, at, 0) {
            Ok(_) => {},
            Err(e) => {
                proof {
                    lemma_with_ports_err(
                        b,
                        *gallery,
                        *provider,
                        *g,
                        o,
                        i + 1,
                        g.ports@.len() as int,
                    );
                }
                return Err(e);
            },
        }
        d.ports = no;
        assert(d@ =~= DraftV { w: d@.w, ports: no, ..x });
        d.use_net(net);
        d.attach_net(net, at);
        i += 1;
    }
    Ok(())
}

fn find_tap(v: &Vec<Tap>, net: &str, at: Pt) -> (r: bool)
    ensures
        r == has_tap(reemit::taps_v(v@), net@, at),
{
    let ghost m = reemit::taps_v(v@);
    let mut i: usize = 0;
    while i < v.len()
        invariant
            i <= v@.len(),
            m == reemit::taps_v(v@),
            forall|k: int| 0 <= k < i ==> !((#[trigger] m[k]).net == net@ && m[k].label == at),
        decreases v@.len() - i,
    {
        assert(m[i as int] == v@[i as int]@);
        if same(v[i].net.as_str(), net) && same_pt(v[i].label, at) {
            return true;
        }
        i += 1;
    }
    false
}

fn draw_labels(d: &mut Draft, block: &str, g: &ClusterGeom, o: (i64, i64))
    ensures
        final(d)@ == labelled(old(d)@, block@, *g, o, g.labels@.len() as int),
{
    let ghost b = d@;
    let mut i: usize = 0;
    while i < g.labels.len()
        invariant
            i <= g.labels@.len(),
            d@ == labelled(b, block@, *g, o, i as int),
        decreases g.labels@.len() - i,
    {
        let net = g.labels[i].0.as_str();
        let at = shift(g.labels[i].1, o);
        if !find_tap(&d.taps, net, at) {
            d.push_tap(net, at, at, g.labels[i].2);
            d.touch(net, block);
        }
        d.use_net(net);
        i += 1;
    }
}

fn draw_cluster(
    d: &mut Draft,
    gallery: &Gallery,
    provider: &Provider,
    block: &str,
    g: &ClusterGeom,
    o: (i64, i64),
) -> (r: Result<(), EmitError>)
    ensures
        reemit::comes_out(
            r,
            final(d)@,
            cluster_drawn(old(d)@, *gallery, *provider, block@, *g, o),
        ),
{
    draw_wires(d, block, g, o);
    draw_dots(d, g, o);
    match draw_ports(d, gallery, provider, g, o) {
        Ok(_) => {},
        Err(e) => return Err(e),
    }
    draw_labels(d, block, g, o);
    Ok(())
}

/// The draft after the first `n` clusters of a block.
pub open spec fn clusters_drawn(
    d: DraftV,
    gallery: Gallery,
    p: Provider,
    origins: reconcile::OriginsV,
    block: Seq<char>,
    v: Seq<ClusterGeom>,
    n: int,
) -> Drawn
    decreases n,
{
    if n <= 0 {
        Ok(d)
    } else {
        match clusters_drawn(d, gallery, p, origins, block, v, n - 1) {
            Err(e) => Err(e),
            Ok(x) => cluster_drawn(
                x,
                gallery,
                p,
                block,
                v[n - 1],
                reemit::origin_at(origins, reconcile::key_of_cluster(block, (n - 1) as nat)),
            ),
        }
    }
}

/// The draft after the clusters of the first `n` blocks.
pub open spec fn all_clusters(
    d: DraftV,
    gallery: Gallery,
    p: Provider,
    origins: reconcile::OriginsV,
    v: Seq<(String, Vec<ClusterGeom>)>,
    n: int,
) -> Drawn
    decreases n,
{
    if n <= 0 {
        Ok(d)
    } else {
        match all_clusters(d, gallery, p, origins, v, n - 1) {
            Err(e) => Err(e),
            Ok(x) => clusters_drawn(
                x,
                gallery,
                p,
                origins,
                v[n - 1].0@,
                v[n - 1].1@,
                v[n - 1].1@.len() as int,
            ),
        }
    }
}

pub open spec fn joined_up(d: DraftV, v: Seq<(Pt, Pt, String)>, n: int) -> DraftV
    decreases n,
{
    if n <= 0 {
        d
    } else {
        let x = joined_up(d, v, n - 1);
        x.on(x.w.with_wire(v[n - 1].0, v[n - 1].1, Some(v[n - 1].2@)))
    }
}

/// The draft after all clusters and the wires that join them to pins.
pub open spec fn decorated(
    d: DraftV,
    gallery: Gallery,
    p: Provider,
    origins: reconcile::OriginsV,
    gi: GrammarInputs,
    auto: Layout,
) -> Drawn {
    match all_clusters(d, gallery, p, origins, gi.geoms@, gi.geoms@.len() as int) {
        Err(e) => Err(e),
        Ok(x) => Ok(joined_up(x, auto.joins@, auto.joins@.len() as int)),
    }
}

proof fn lemma_clusters_err(
    d: DraftV,
    gallery: Gallery,
    p: Provider,
    origins: reconcile::OriginsV,
    block: Seq<char>,
    v: Seq<ClusterGeom>,
    n: int,
    m: int,
)
    requires
        0 <= n <= m,
        clusters_drawn(d, gallery, p, origins, block, v, n) is Err,
    ensures
        clusters_drawn(d, gallery, p, origins, block, v, m) == clusters_drawn(
            d,
            gallery,
            p,
            origins,
            block,
            v,
            n,
        ),
    decreases m - n,
{
    if n < m {
        lemma_clusters_err(d, gallery, p, origins, block, v, n, m - 1);
    }
}

proof fn lemma_all_clusters_err(
    d: DraftV,
    gallery: Gallery,
    p: Provider,
    origins: reconcile::OriginsV,
    v: Seq<(String, Vec<ClusterGeom>)>,
    n: int,
    m: int,
)
    requires
        0 <= n <= m,
        all_clusters(d, gallery, p, origins, v, n) is Err,
    ensures
        all_clusters(d, gallery, p, origins, v, m) == all_clusters(d, gallery, p, origins, v, n),
    decreases m - n,
{
    if n < m {
        lemma_all_clusters_err(d, gallery, p, origins, v, n, m - 1);
    }
}

fn draw_clusters(
    d: &mut Draft,
    gallery: &Gallery,
    provider: &Provider,
    origins: &IndexMap<String, (i64, i64)>,
    block: &str,
    v: &Vec<ClusterGeom>,
) -> (r: Result<(), EmitError>)
    ensures
        reemit::comes_out(
            r,
            final(d)@,
            clusters_drawn(
                old(d)@,
                *gallery,
                *provider,
                reconcile::origin_entries(*origins),
                block@,
                v@,
                v@.len() as int,
            ),
        ),
{
    let ghost b = d@;
    let ghost ov = reconcile::origin_entries(*origins);
    let mut i: usize = 0;
    while i < v.len()
        invariant
            i <= v@.len(),
            b == old(d)@,
            ov == reconcile::origin_entries(*origins),
            clusters_drawn(b, *gallery, *provider, ov, block@, v@, i as int) == Ok::<
                DraftV,
                EmitErrorV,
            >(d@),
        decreases v@.len() - i,
    {
        let key = cluster_key(block, i);
        let o: (i64, i64) = match get_origin(origins, key.as_str()) {
            Some(p) => p,
            None => (0, 0),
        };
        match draw_cluster(d, gallery, provider, block, &v[i], o) {
            Ok(_) => {},
            Err(e) => {
                proof {
                    lemma_clusters_err(
                        b,
                        *gallery,
                        *provider,
                        ov,
                        block@,
                        v@,
                        i + 1,
                        v@.len() as int,
                    );
                }
                return Err(e);
            },
        }
        i += 1;
    }
    Ok(())
}

/// Draws every cluster at its origin, and the wires that join clusters to pins.
pub fn emit_cluster_decoration(
    d: &mut Draft,
    gallery: &Gallery,
    provider: &Provider,
    gi: &GrammarInputs,
    origins: &IndexMap<String, (i64, i64)>,
    auto: &Layout,
) -> (r: Result<(), EmitError>)
    ensures
        reemit::comes_out(
            r,
            final(d)@,
            decorated(
                old(d)@,
                *gallery,
                *provider,
                reconcile::origin_entries(*origins),
                *gi,
                *auto,
            ),
        ),
{
    let ghost b = d@;
    let ghost ov = reconcile::origin_entries(*origins);
    let mut i: usize = 0;
    while i < gi.geoms.len()
        invariant
            i <= gi.geoms@.len(),
            b == old(d)@,
            ov == reconcile::origin_entries(*origins),
            all_clusters(b, *gallery, *provider, ov, gi.geoms@, i as int) == Ok::<
                DraftV,
                EmitErrorV,
            >(d@),
        decreases gi.geoms@.len() - i,
    {
        let g = &gi.geoms[i];
        match draw_clusters(d, gallery, provider, origins, g.0.as_str(), &g.1) {
            Ok(_) => {},
            Err(e) => {
                proof {
                    lemma_all_clusters_err(
                        b,
                        *gallery,
                        *provider,
                        ov,
                        gi.geoms@,
                        i + 1,
                        gi.geoms@.len() as int,
                    );
                }
                return Err(e);
            },
        }
        i += 1;
    }
    let ghost mid = d@;
    let mut k: usize = 0;
    while k < auto.joins.len()
        invariant
            k <= auto.joins@.len(),
            d@ == joined_up(mid, auto.joins@, k as int),
        decreases auto.joins@.len() - k,
    {
        let ghost x = d@;
        let j = &auto.joins[k];
        d.w.add_wire_on_net(j.0, j.1, j.2.as_str());
        assert(d@ =~= x.on(d@.w));
        k += 1;
    }
    Ok(())
}

// ---------------------------------------------------------------- flags
/// The power nets of a circuit among the first `n` nets that are in use, added to a set.
pub open spec fn with_rails(
    s: Seq<Seq<char>>,
    nets: Seq<(String, bool)>,
    used: Seq<Seq<char>>,
    n: int,
) -> Seq<Seq<char>>
    decreases n,
{
    if n <= 0 {
        s
    } else {
        let rest = with_rails(s, nets, used, n - 1);
        if nets[n - 1].1 && used.contains(nets[n - 1].0@) {
            names::set_add(rest, nets[n - 1].0@)
        } else {
            rest
        }
    }
}

/// The first `n` names that are not in another set.
pub open spec fn left_out(v: Seq<Seq<char>>, out: Seq<Seq<char>>, n: int) -> Seq<Seq<char>>
    decreases n,
{
    if n <= 0 {
        Seq::empty()
    } else {
        let rest = left_out(v, out, n - 1);
        if out.contains(v[n - 1]) {
            rest
        } else {
            rest.push(v[n - 1])
        }
    }
}

/// The nets that need a flag: those with a power input and the power nets in use, but for those
/// that a pin drives.
pub open spec fn flagged(d: DraftV, nets: Seq<(String, bool)>) -> Seq<Seq<char>> {
    let v = with_rails(d.inputs, nets, d.used, nets.len() as int);
    left_out(v, d.driven, v.len() as int)
}

pub fn needs_flag(d: &Draft, nets: &Vec<(String, bool)>) -> (r: Vec<String>)
    ensures
        text::views(r@) == flagged(d@, nets@),
{
    let mut v: Vec<String> = Vec::new();
    let ghost base = d@.inputs;
    let mut i: usize = 0;
    while i < d.inputs.len()
        invariant
            i <= d.inputs@.len(),
            v@.len() == i,
            forall|k: int| 0 <= k < i ==> (#[trigger] v@[k])@ == d.inputs@[k]@,
        decreases d.inputs@.len() - i,
    {
        v.push(d.inputs[i].clone());
        i += 1;
    }
    assert(text::views(v@) =~= base);
    i = 0;
    while i < nets.len()
        invariant
            i <= nets@.len(),
            text::views(v@) == with_rails(base, nets@, d@.used, i as int),
        decreases nets@.len() - i,
    {
        if nets[i].1 && has_name(&d.used, nets[i].0.as_str()) {
            add_distinct(&mut v, nets[i].0.clone());
        }
        i += 1;
    }
    let ghost vv = text::views(v@);
    let mut r: Vec<String> = Vec::new();
    i = 0;
    assert(text::views(r@) =~= left_out(vv, d@.driven, 0));
    while i < v.len()
        invariant
            i <= v@.len(),
            vv == text::views(v@),
            text::views(r@) == left_out(vv, d@.driven, i as int),
        decreases v@.len() - i,
    {
        assert(vv[i as int] == v@[i as int]@);
        if !has_name(&d.driven, v[i].as_str()) {
            let ghost r0 = text::views(r@);
            r.push(v[i].clone());
            assert(text::views(r@) =~= r0.push(vv[i as int]));
        }
        i += 1;
    }
    r
}

/// A flag on a net never joins a net that a pin drives.
pub proof fn driven_nets_need_no_flag(d: DraftV, nets: Seq<(String, bool)>, net: Seq<char>)
    requires
        d.driven.contains(net),
    ensures
        !flagged(d, nets).contains(net),
{
    let v = with_rails(d.inputs, nets, d.used, nets.len() as int);
    lemma_left_out(v, d.driven, v.len() as int, net);
}

proof fn lemma_left_out(v: Seq<Seq<char>>, out: Seq<Seq<char>>, n: int, x: Seq<char>)
    requires
        n <= v.len(),
        out.contains(x),
    ensures
        !left_out(v, out, n).contains(x),
    decreases n,
{
    if n > 0 {
        lemma_left_out(v, out, n - 1, x);
        let rest = left_out(v, out, n - 1);
        let all = left_out(v, out, n);
        if all.contains(x) {
            let k = choose|k: int| 0 <= k < all.len() && all[k] == x;
            if k < rest.len() {
                assert(rest[k] == x);
            }
        }
    }
}

/// The rightmost of the first `n` components, at least zero.
pub open spec fn rightmost(v: Seq<(Seq<char>, Pt)>, n: int) -> int
    decreases n,
{
    if n <= 0 {
        0
    } else {
        geom::hi(rightmost(v, n - 1), v[n - 1].1.x as int)
    }
}

/// The draft after the first `n` flags: at the power symbol of the net, or in a column on the
/// right with a label.
pub open spec fn flags_drawn(d: DraftV, g: Gallery, nets: Seq<Seq<char>>, column: int, n: int) -> Drawn
    decreases n,
{
    if n <= 0 {
        Ok(d)
    } else {
        match flags_drawn(d, g, nets, column, n - 1) {
            Err(e) => Err(e),
            Ok(x) => {
                let name = "#FLG"@ + two_digits(n as nat);
                let net = nets[n - 1];
                match g.found("power:PWR_FLAG"@) {
                    None => Err(EmitErrorV::NoSymbol("power:PWR_FLAG"@)),
                    Some(s) => match order_map::look(x.attach, net) {
                        Some(at) => Ok(
                            x.on(
                                x.w.with_symbol(s, name, "PWR_FLAG"@, at, 0, Seq::empty(), None),
                            ),
                        ),
                        None => {
                            let at = emit::snapped_pt(column, 2_540_000 + 1_270_000 * (n - 1));
                            let w = x.w.with_symbol(
                                s,
                                name,
                                "PWR_FLAG"@,
                                at,
                                0,
                                Seq::empty(),
                                None,
                            );
                            match emit::pin_ends(w, g, name, "1"@) {
                                Err(e) => Err(e),
                                Ok(v) => Ok(
                                    x.on(
                                        WriterV {
                                            labels: w.labels + emit::end_labels(
                                                v,
                                                name,
                                                "1"@,
                                                net,
                                                v.len() as int,
                                            ),
                                            ..w
                                        },
                                    ),
                                ),
                            }
                        },
                    },
                }
            },
        }
    }
}

proof fn lemma_flags_err(
    d: DraftV,
    g: Gallery,
    nets: Seq<Seq<char>>,
    column: int,
    n: int,
    m: int,
)
    requires
        0 <= n <= m,
        flags_drawn(d, g, nets, column, n) is Err,
    ensures
        flags_drawn(d, g, nets, column, m) == flags_drawn(d, g, nets, column, n),
    decreases m - n,
{
    if n < m {
        lemma_flags_err(d, g, nets, column, n, m - 1);
    }
}

/// Flags every net that needs a flag.
pub fn draw_flags(d: &mut Draft, gallery: &Gallery, nets: &Vec<String>) -> (r: Result<(), EmitError>)
    ensures
        reemit::comes_out(
            r,
            final(d)@,
            flags_drawn(
                old(d)@,
                *gallery,
                text::views(nets@),
                rightmost(old(d)@.emitted, old(d)@.emitted.len() as int) + 5_080_000,
                nets@.len() as int,
            ),
        ),
{
    let ghost b = d@;
    let ghost nv = text::views(nets@);
    let mut right: i64 = 0;
    let mut i: usize = 0;
    while i < d.emitted.len()
        invariant
            i <= d.emitted@.len(),
            d@ == b,
            right == rightmost(b.emitted, i as int),
        decreases d.emitted@.len() - i,
    {
        assert(b.emitted[i as int].1 == d.emitted@[i as int].1);
        right = geom::max_i(right, d.emitted[i].1.x);
        i += 1;
    }
    assert(b.emitted.len() == d.emitted@.len());
    let column: i128 = right as i128 + 5_080_000;
    i = 0;
    while i < nets.len()
        invariant
            i <= nets@.len(),
            b == old(d)@,
            nv == text::views(nets@),
            column == rightmost(b.emitted, b.emitted.len() as int) + 5_080_000,
            flags_drawn(b, *gallery, nv, column as int, i as int) == Ok::<DraftV, EmitErrorV>(d@),
        decreases nets@.len() - i,
    {
        let ghost x = d@;
        let two = write_two(i as u128 + 1);
        let name = Line::of("#FLG").add(two.as_str()).done();
        assert(nv[i as int] == nets@[i as int]@);
        let place: Option<Pt> = match find_named(&d.attach, nets[i].as_str()) {
            Some(at) => Some(*at),
            None => None,
        };
        let out = match place {
            Some(at) => d.w.add_power_flag_at(gallery, name.as_str(), at),
            None => {
                let at = snap_sum(column, 2_540_000 + 1_270_000 * (i as i128));
                d.w.add_power_flag(gallery, nets[i].as_str(), name.as_str(), at)
            },
        };
        match out {
            Ok(_) => {},
            Err(e) => {
                proof {
                    lemma_flags_err(b, *gallery, nv, column as int, i + 1, nets@.len() as int);
                }
                return Err(e);
            },
        }
        assert(d@ =~= x.on(d@.w));
        i += 1;
    }
    Ok(())
}

} // verus!
