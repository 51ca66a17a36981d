//! Measuring and placing a layout tree.
use crate::engine::PartInst;
use crate::geo;
use crate::geom;
use crate::geom::{max_i, Dir, Mirror};
use crate::group::Frame;
use crate::names::has_name;
use crate::order_map;
use crate::orient;
use crate::orient::{
    align_line, is_rail, is_upright, list_rails, net_at, rots_with_axis, spot_at, turn_over, Room,
    LIMIT,
};
use crate::symlib;
use crate::text;
use crate::text::same;
use crate::tree;
use crate::tree::{Tree, TreeV};
use vstd::prelude::*;

verus! {

#[derive(Clone, Copy, Debug, PartialEq, Eq, Structural)]
pub enum Kind {
    Leaf,
    Row,
    Col,
}

/// A measured node of a layout tree.
#[derive(Debug)]
pub struct MNode {
    pub kind: Kind,
    pub room: Room,
    /// Position of the part in the group.
    pub part: Option<usize>,
    pub rot: i32,
    pub mirror: String,
    pub children: Vec<MNode>,
    pub gap: i64,
    pub align: String,
    /// Where the children of a column stand that lines up with pins.
    pub offsets: Option<Vec<i64>>,
}

#[verifier::ext_equal]
pub struct MV {
    pub kind: Kind,
    pub room: Room,
    pub part: Option<usize>,
    pub rot: i32,
    pub mirror: Seq<char>,
    pub children: Seq<MV>,
    pub gap: i64,
    pub align: Seq<char>,
    pub offsets: Option<Seq<i64>>,
}

pub open spec fn offsets_v(o: Option<Vec<i64>>) -> Option<Seq<i64>> {
    match o {
        Some(v) => Some(v@),
        None => None,
    }
}

/// The node that stands for one that could not be measured.
pub open spec fn no_node() -> MV {
    MV {
        kind: Kind::Leaf,
        room: Room { w: 508_000, h: 508_000, ax: 254_000, ay: 254_000, aax: 254_000, aay: 254_000 },
        part: None,
        rot: 0,
        mirror: ""@,
        children: Seq::empty(),
        gap: 0,
        align: "center"@,
        offsets: None,
    }
}

impl MNode {
    pub open spec fn view(&self) -> MV
        decreases self,
    {
        MV {
            kind: self.kind,
            room: self.room,
            part: self.part,
            rot: self.rot,
            mirror: self.mirror@,
            children: Seq::new(
                self.children@.len(),
                |i: int|
                    if 0 <= i < self.children@.len() {
                        self.children@[i].view()
                    } else {
                        no_node()
                    },
            ),
            gap: self.gap,
            align: self.align@,
            offsets: offsets_v(self.offsets),
        }
    }
}

pub open spec fn nodes_v(v: Seq<MNode>) -> Seq<MV> {
    Seq::new(v.len(), |i: int| v[i]@)
}

pub proof fn lemma_node_view(n: MNode)
    ensures
        n@.children == nodes_v(n.children@),
{
    assert(n@.children =~= nodes_v(n.children@));
}

/// Cuts a sum to the largest length that a measured tree holds.
pub(crate) fn cut_wide(v: i128) -> (r: i64)
    ensures
        r == orient::cut(v as int),
        orient::fits(r as int),
{
    if v > LIMIT as i128 {
        LIMIT
    } else if v < -(LIMIT as i128) {
        -LIMIT
    } else {
        v as i64
    }
}

/// Whether a node is a part of the group.
pub open spec fn known(f: Frame, k: MV) -> bool {
    k.part is Some && k.part->0 < f.parts@.len()
}

pub open spec fn part_of(f: Frame, k: MV) -> PartInst {
    f.parts@[k.part->0 as int]
}

pub(crate) fn known_part<'a>(f: &'a Frame, k: &MNode) -> (r: Option<&'a PartInst>)
    requires
        f.wf(),
    ensures
        match r {
            Some(p) => known(*f, k@) && *p == part_of(*f, k@) && p.wf(),
            None => !known(*f, k@),
        },
{
    match k.part {
        Some(i) => if i < f.parts.len() {
            Some(&f.parts[i])
        } else {
            None
        },
        None => None,
    }
}

// ---------------------------------------------------------------- facing the neighbours
/// The nets of the first `n` pins of a part.
pub open spec fn leaf_nets(p: PartInst, n: int) -> Seq<Seq<char>>
    decreases n,
{
    if n <= 0 {
        Seq::empty()
    } else {
        let rest = leaf_nets(p, n - 1);
        match orient::pin_net(p, n - 1) {
            Some(net) => if net == "nc"@ || net == "float"@ {
                rest
            } else {
                rest.push(net)
            },
            None => rest,
        }
    }
}

/// The nets of a neighbour that is a part.
pub open spec fn side_nets(f: Frame, kids: Seq<MV>, j: int) -> Seq<Seq<char>> {
    if 0 <= j < kids.len() && kids[j].kind == Kind::Leaf && known(f, kids[j]) {
        let p = part_of(f, kids[j]);
        leaf_nets(p, p.pins@.len() as int)
    } else {
        Seq::empty()
    }
}

pub open spec fn flip_of(k: MV) -> Mirror {
    symlib::mirror_spec(k.mirror)
}

/// A leaf in another orientation.
pub open spec fn turned_leaf(p: PartInst, k: MV, rot: i32, mirror: Seq<char>, row: bool) -> MV {
    MV {
        rot,
        mirror,
        room: orient::leaf_room(p, rot as int, symlib::mirror_spec(mirror), row),
        ..k
    }
}

pub open spec fn one_way(p: PartInst, k: MV) -> bool {
    &&& p.pins@.len() > 0
    &&& forall|j: int|
        0 <= j < p.pins@.len() ==> #[trigger] orient::heading(p, j, k.rot as int, flip_of(k))
            == orient::heading(p, 0, k.rot as int, flip_of(k))
}

/// A connector at the end of a row or a column, mirrored where all its pins point away from its
/// only neighbour.
pub open spec fn faced_connector(
    p: PartInst,
    k: MV,
    fixed: bool,
    prev: bool,
    next: bool,
    row: bool,
) -> MV {
    if fixed || prev == next || !one_way(p, k) {
        k
    } else {
        let d = orient::heading(p, 0, k.rot as int, flip_of(k));
        if row {
            if (next && d == (-1i32, 0i32)) || (prev && d == (1i32, 0i32)) {
                turned_leaf(p, k, k.rot, "y"@, row)
            } else {
                k
            }
        } else {
            if (next && d == (0i32, -1i32)) || (prev && d == (0i32, 1i32)) {
                turned_leaf(p, k, k.rot, "x"@, row)
            } else {
                k
            }
        }
    }
}

/// The first pin from `j` on that is on one of the nets and points that way.
pub open spec fn first_hit(p: PartInst, k: MV, nets: Seq<Seq<char>>, d: Dir, j: int) -> int
    decreases p.pins@.len() - j,
{
    if j < 0 || j >= p.pins@.len() || (match orient::pin_net(p, j) {
        Some(n) => nets.contains(n),
        None => false,
    } && orient::heading(p, j, k.rot as int, flip_of(k)) == d) {
        j
    } else {
        first_hit(p, k, nets, d, j + 1)
    }
}

/// A leaf aligned on one of its pins.
pub open spec fn on_pin(p: PartInst, k: MV, j: int, row: bool) -> MV {
    let s = orient::spot(p, j, k.rot as int, flip_of(k));
    MV {
        room: if row {
            Room { ay: orient::cut(k.room.aay + s.y), ..k.room }
        } else {
            Room { ax: orient::cut(k.room.aax + s.x), ..k.room }
        },
        ..k
    }
}

/// A part with many pins, aligned on the pin that connects to the neighbour before it, else on the
/// one that connects to the neighbour after it.
pub open spec fn faced_large(
    p: PartInst,
    k: MV,
    pn: Seq<Seq<char>>,
    nn: Seq<Seq<char>>,
    row: bool,
) -> MV {
    let (back, ahead) = if row {
        ((-1i32, 0i32), (1i32, 0i32))
    } else {
        ((0i32, -1i32), (0i32, 1i32))
    };
    let a = first_hit(p, k, pn, back, 0);
    let b = first_hit(p, k, nn, ahead, 0);
    if a < p.pins@.len() {
        on_pin(p, k, a, row)
    } else if b < p.pins@.len() {
        on_pin(p, k, b, row)
    } else {
        k
    }
}

/// The nets of the first `n` pins that are not among the rails.
pub open spec fn sig_nets(p: PartInst, rails: Seq<Seq<char>>, n: int) -> Seq<Option<Seq<char>>>
    decreases n,
{
    if n <= 0 {
        Seq::empty()
    } else {
        let rest = sig_nets(p, rails, n - 1);
        match orient::pin_net(p, n - 1) {
            Some(net) => if rails.contains(net) {
                rest
            } else {
                rest.push(Some(net))
            },
            None => rest.push(None),
        }
    }
}

/// Whether a part standing in a row ends a chain at a rail: one pin on a rail, the other on a net
/// of the part before it alone.
pub open spec fn ends_chain(
    p: PartInst,
    f: Frame,
    pn: Seq<Seq<char>>,
    nn: Seq<Seq<char>>,
) -> bool {
    let n = p.pins@.len() as int;
    let rails = orient::rail_nets(p, f, n);
    let sigs = sig_nets(p, rails, n);
    rails.len() == 1 && sigs.len() == 1 && match sigs[0] {
        Some(s) => pn.contains(s) && !nn.contains(s),
        None => false,
    }
}

/// Whether a pin's net is a signal among the nets.
pub open spec fn joins(f: Frame, nets: Seq<Seq<char>>, n: Option<Seq<char>>) -> bool {
    match n {
        Some(net) => nets.contains(net) && !orient::rail(f, net),
        None => false,
    }
}

pub open spec fn any_bad(p: PartInst, f: Frame, rot: int, m: Mirror) -> bool {
    exists|j: int| 0 <= j < p.pins@.len() && #[trigger] orient::points_badly(p, f, j, rot, m)
}

/// Whether turning a part over would bring the pin that meets its neighbours to their side.
pub open spec fn wants_turn(
    f: Frame,
    pn: Seq<Seq<char>>,
    nn: Seq<Seq<char>>,
    across: bool,
    near: Option<Seq<char>>,
    far: Option<Seq<char>>,
) -> bool {
    if across {
        (joins(f, pn, far) || joins(f, nn, far)) && !(joins(f, pn, near) || joins(f, nn, near))
    } else {
        (joins(f, pn, far) && !joins(f, pn, near)) || (joins(f, nn, near) && !joins(f, nn, far))
    }
}

/// A two-pin part turned to its neighbours: a shunt meets them with its top or left pin, a series
/// part has the pin that shares a net with the part before it on that side.
pub open spec fn faced_pair(
    f: Frame,
    p: PartInst,
    k: MV,
    pn: Seq<Seq<char>>,
    nn: Seq<Seq<char>>,
    row: bool,
    after_leaf: bool,
) -> MV {
    let across = row == orient::stands_up(p, k.rot as int, flip_of(k));
    let lays = across && row && after_leaf && ends_chain(p, f, pn, nn) && orient::rots(p, true).len()
        > 0;
    let k1 = if lays {
        turned_leaf(p, k, orient::rots(p, true)[0], ""@, row)
    } else {
        k
    };
    turned_to(f, p, k1, pn, nn, row, across && !lays)
}

pub open spec fn turned_to(
    f: Frame,
    p: PartInst,
    k: MV,
    pn: Seq<Seq<char>>,
    nn: Seq<Seq<char>>,
    row: bool,
    across: bool,
) -> MV {
    let s0 = orient::spot(p, 0, k.rot as int, flip_of(k));
    let s1 = orient::spot(p, 1, k.rot as int, flip_of(k));
    let first_near = if across == row {
        s0.y < s1.y
    } else {
        s0.x < s1.x
    };
    let n0 = orient::pin_net(p, 0);
    let n1 = orient::pin_net(p, 1);
    let (near, far) = if first_near {
        (n0, n1)
    } else {
        (n1, n0)
    };
    let over = orient::half_turn(k.rot as int);
    if wants_turn(f, pn, nn, across, near, far) && !any_bad(p, f, over, flip_of(k)) {
        turned_leaf(p, k, over as i32, k.mirror, row)
    } else {
        k
    }
}

/// A child of a row or a column, turned to its neighbours unless its orientation was given.
pub open spec fn faced(f: Frame, kids: Seq<MV>, raws: Seq<TreeV>, row: bool, i: int) -> MV {
    let k = kids[i];
    if k.kind != Kind::Leaf || !known(f, k) || raws[i].style.rot is Some {
        k
    } else {
        let p = part_of(f, k);
        let pn = side_nets(f, kids, i - 1);
        let nn = side_nets(f, kids, i + 1);
        if p.is_connector {
            faced_connector(p, k, raws[i].style.mirror is Some, i > 0, i + 1 < kids.len(), row)
        } else if !p.two_pin {
            faced_large(p, k, pn, nn, row)
        } else if p.pins@.len() < 2 {
            k
        } else {
            faced_pair(f, p, k, pn, nn, row, i > 0 && kids[i - 1].kind == Kind::Leaf)
        }
    }
}

fn list_leaf_nets(p: &PartInst) -> (r: Vec<String>)
    requires
        p.wf(),
    ensures
        text::views(r@) == leaf_nets(*p, p.pins@.len() as int),
{
    let mut r: Vec<String> = Vec::new();
    let mut k: usize = 0;
    assert(text::views(r@) =~= leaf_nets(*p, 0));
    while k < p.pins.len()
        invariant
            k <= p.pins@.len(),
            p.wf(),
            text::views(r@) == leaf_nets(*p, k as int),
        decreases p.pins@.len() - k,
    {
        let ghost r0 = text::views(r@);
        match net_at(p, k) {
            Some(net) => {
                if !(same(net.as_str(), "nc") || same(net.as_str(), "float")) {
                    r.push(net.clone());
                    assert(text::views(r@) =~= r0.push(net@));
                }
            },
            None => {},
        }
        k += 1;
    }
    r
}

fn nets_beside(f: &Frame, kids: &Vec<MNode>, j: usize) -> (r: Vec<String>)
    requires
        f.wf(),
    ensures
        text::views(r@) == side_nets(*f, nodes_v(kids@), j as int),
{
    if j < kids.len() {
        assert(nodes_v(kids@)[j as int] == kids@[j as int]@);
        if kids[j].kind == Kind::Leaf {
            match known_part(f, &kids[j]) {
                Some(p) => return list_leaf_nets(p),
                None => {},
            }
        }
    }
    let r: Vec<String> = Vec::new();
    assert(text::views(r@) =~= Seq::empty());
    r
}

/// What facing decides about a leaf.
struct Turn {
    rot: i32,
    mirror: String,
    room: Room,
}

spec fn turn_of(k: MV, t: Turn) -> MV {
    MV { rot: t.rot, mirror: t.mirror@, room: t.room, ..k }
}

fn keep(k: &MNode) -> (r: Turn)
    ensures
        turn_of(k@, r) == k@,
{
    Turn { rot: k.rot, mirror: k.mirror.clone(), room: k.room }
}

fn turn_leaf(p: &PartInst, k: &MNode, rot: i32, mirror: &str, row: bool) -> (r: Turn)
    requires
        p.wf(),
    ensures
        turn_of(k@, r) == turned_leaf(*p, k@, rot, mirror@, row),
{
    let room = align_line(p, rot, mirror, row);
    Turn { rot, mirror: mirror.to_owned(), room }
}

fn points_one_way(p: &PartInst, k: &MNode) -> (r: bool)
    requires
        p.wf(),
    ensures
        r == one_way(*p, k@),
{
    if p.pins.len() == 0 {
        return false;
    }
    let d = p.pin_dir_at(&p.pins[0], k.rot, k.mirror.as_str());
    let mut j: usize = 0;
    while j < p.pins.len()
        invariant
            j <= p.pins@.len(),
            p.pins@.len() > 0,
            d == orient::heading(*p, 0, k@.rot as int, flip_of(k@)),
            forall|i: int|
                0 <= i < j ==> #[trigger] orient::heading(*p, i, k@.rot as int, flip_of(k@)) == d,
        decreases p.pins@.len() - j,
    {
        let e = p.pin_dir_at(&p.pins[j], k.rot, k.mirror.as_str());
        if e.0 != d.0 || e.1 != d.1 {
            assert(orient::heading(*p, j as int, k@.rot as int, flip_of(k@)) != d);
            return false;
        }
        j += 1;
    }
    true
}

fn face_connector(
    p: &PartInst,
    k: &MNode,
    fixed: bool,
    prev: bool,
    next: bool,
    row: bool,
) -> (r: Turn)
    requires
        p.wf(),
    ensures
        turn_of(k@, r) == faced_connector(*p, k@, fixed, prev, next, row),
{
    if fixed || prev == next || !points_one_way(p, k) {
        return keep(k);
    }
    let d = p.pin_dir_at(&p.pins[0], k.rot, k.mirror.as_str());
    if row {
        if (next && d.0 == -1 && d.1 == 0) || (prev && d.0 == 1 && d.1 == 0) {
            return turn_leaf(p, k, k.rot, "y", row);
        }
    } else {
        if (next && d.0 == 0 && d.1 == -1) || (prev && d.0 == 0 && d.1 == 1) {
            return turn_leaf(p, k, k.rot, "x", row);
        }
    }
    keep(k)
}

fn find_hit(p: &PartInst, k: &MNode, nets: &Vec<String>, d: Dir) -> (j: usize)
    requires
        p.wf(),
    ensures
        j <= p.pins@.len(),
        j == first_hit(*p, k@, text::views(nets@), d, 0),
{
    let ghost ns = text::views(nets@);
    let mut j: usize = 0;
    while j < p.pins.len()
        invariant
            j <= p.pins@.len(),
            p.wf(),
            ns == text::views(nets@),
            first_hit(*p, k@, ns, d, 0) == first_hit(*p, k@, ns, d, j as int),
        decreases p.pins@.len() - j,
    {
        let e = p.pin_dir_at(&p.pins[j], k.rot, k.mirror.as_str());
        let on = match net_at(p, j) {
            Some(n) => has_name(nets, n.as_str()),
            None => false,
        };
        if on && e.0 == d.0 && e.1 == d.1 {
            return j;
        }
        j += 1;
    }
    j
}

fn align_on(p: &PartInst, k: &MNode, j: usize, row: bool) -> (r: Turn)
    requires
        p.wf(),
        j < p.pins@.len(),
    ensures
        turn_of(k@, r) == on_pin(*p, k@, j as int, row),
{
    let s = spot_at(p, j, k.rot, k.mirror.as_str());
    let room = if row {
        Room { ay: cut_wide(k.room.aay as i128 + s.y as i128), ..k.room }
    } else {
        Room { ax: cut_wide(k.room.aax as i128 + s.x as i128), ..k.room }
    };
    Turn { rot: k.rot, mirror: k.mirror.clone(), room }
}

fn face_large(p: &PartInst, k: &MNode, pn: &Vec<String>, nn: &Vec<String>, row: bool) -> (r: Turn)
    requires
        p.wf(),
    ensures
        turn_of(k@, r) == faced_large(*p, k@, text::views(pn@), text::views(nn@), row),
{
    let back: Dir = if row { (-1, 0) } else { (0, -1) };
    let ahead: Dir = if row { (1, 0) } else { (0, 1) };
    let a = find_hit(p, k, pn, back);
    if a < p.pins.len() {
        return align_on(p, k, a, row);
    }
    let b = find_hit(p, k, nn, ahead);
    if b < p.pins.len() {
        return align_on(p, k, b, row);
    }
    keep(k)
}

pub open spec fn some_texts(v: Seq<Option<String>>) -> Seq<Option<Seq<char>>> {
    Seq::new(v.len(), |i: int| tree::text_v(v[i]))
}

fn is_chain_end(p: &PartInst, f: &Frame, pn: &Vec<String>, nn: &Vec<String>) -> (r: bool)
    requires
        p.wf(),
        f.wf(),
    ensures
        r == ends_chain(*p, *f, text::views(pn@), text::views(nn@)),
{
    let rails = list_rails(p, f);
    let ghost rs = text::views(rails@);
    let mut sigs: Vec<Option<String>> = Vec::new();
    let mut k: usize = 0;
    assert(some_texts(sigs@) =~= sig_nets(*p, rs, 0));
    while k < p.pins.len()
        invariant
            k <= p.pins@.len(),
            p.wf(),
            rs == text::views(rails@),
            some_texts(sigs@) == sig_nets(*p, rs, k as int),
        decreases p.pins@.len() - k,
    {
        let ghost s0 = some_texts(sigs@);
        match net_at(p, k) {
            Some(net) => {
                if !has_name(&rails, net.as_str()) {
                    sigs.push(Some(net.clone()));
                    assert(some_texts(sigs@) =~= s0.push(Some(net@)));
                }
            },
            None => {
                sigs.push(None);
                assert(some_texts(sigs@) =~= s0.push(None));
            },
        }
        k += 1;
    }
    assert(rs.len() == rails@.len());
    assert(some_texts(sigs@).len() == sigs@.len());
    if rails.len() != 1 || sigs.len() != 1 {
        return false;
    }
    assert(some_texts(sigs@)[0] == tree::text_v(sigs@[0]));
    match &sigs[0] {
        Some(s) => has_name(pn, s.as_str()) && !has_name(nn, s.as_str()),
        None => false,
    }
}

fn does_join(f: &Frame, nets: &Vec<String>, n: &Option<&String>) -> (r: bool)
    requires
        f.wf(),
    ensures
        r == joins(
            *f,
            text::views(nets@),
            match *n {
                Some(t) => Some(t@),
                None => None,
            },
        ),
{
    match n {
        Some(t) => has_name(nets, t.as_str()) && !is_rail(f, t.as_str()),
        None => false,
    }
}

fn has_bad(p: &PartInst, f: &Frame, rot: i32, mirror: &str) -> (r: bool)
    requires
        p.wf(),
        f.wf(),
    ensures
        r == any_bad(*p, *f, rot as int, symlib::mirror_spec(mirror@)),
{
    let ghost m = symlib::mirror_spec(mirror@);
    let mut j: usize = 0;
    while j < p.pins.len()
        invariant
            j <= p.pins@.len(),
            p.wf(),
            f.wf(),
            m == symlib::mirror_spec(mirror@),
            forall|i: int|
                0 <= i < j ==> !#[trigger] orient::points_badly(*p, *f, i, rot as int, m),
        decreases p.pins@.len() - j,
    {
        match net_at(p, j) {
            Some(net) => {
                let d = p.pin_dir_at(&p.pins[j], rot, mirror);
                let up: i32 = if geo::is_gnd(net.as_str()) { -1 } else { 1 };
                if is_rail(f, net.as_str()) && d.0 == 0 && d.1 == up {
                    assert(orient::points_badly(*p, *f, j as int, rot as int, m));
                    return true;
                }
            },
            None => {},
        }
        j += 1;
    }
    false
}

fn face_pair(
    f: &Frame,
    p: &PartInst,
    k: &MNode,
    pn: &Vec<String>,
    nn: &Vec<String>,
    row: bool,
    after_leaf: bool,
) -> (r: Turn)
    requires
        p.wf(),
        f.wf(),
        p.pins@.len() >= 2,
    ensures
        turn_of(k@, r) == faced_pair(
            *f,
            *p,
            k@,
            text::views(pn@),
            text::views(nn@),
            row,
            after_leaf,
        ),
{
    let mut across = row == is_upright(p, k.rot, k.mirror.as_str());
    let mut t = keep(k);
    if across && row && after_leaf && is_chain_end(p, f, pn, nn) {
        let rs = rots_with_axis(p, true);
        if rs.len() > 0 {
            t = turn_leaf(p, k, rs[0], "", row);
            across = false;
        }
    }
    let ghost k1 = turn_of(k@, t);
    let s0 = spot_at(p, 0, t.rot, t.mirror.as_str());
    let s1 = spot_at(p, 1, t.rot, t.mirror.as_str());
    let first_near = if across == row { s0.y < s1.y } else { s0.x < s1.x };
    let n0 = net_at(p, 0);
    let n1 = net_at(p, 1);
    let near = if first_near { n0 } else { n1 };
    let far = if first_near { n1 } else { n0 };
    let pf = does_join(f, pn, &far);
    let pnear = does_join(f, pn, &near);
    let nf = does_join(f, nn, &far);
    let nnear = does_join(f, nn, &near);
    let wants = if across {
        (pf || nf) && !(pnear || nnear)
    } else {
        (pf && !pnear) || (nnear && !nf)
    };
    let over = turn_over(t.rot);
    if wants && !has_bad(p, f, over, t.mirror.as_str()) {
        let room = align_line(p, over, t.mirror.as_str(), row);
        let r = Turn { rot: over, mirror: t.mirror, room };
        assert(turn_of(k@, r) =~= turned_leaf(*p, k1, over, k1.mirror, row));
        r
    } else {
        t
    }
}

fn face_one(f: &Frame, kids: &Vec<MNode>, raws: &Vec<Tree>, row: bool, i: usize) -> (r: Turn)
    requires
        f.wf(),
        i < kids@.len(),
        raws@.len() == kids@.len(),
    ensures
        turn_of(kids@[i as int]@, r) == faced(
            *f,
            nodes_v(kids@),
            tree::trees_v(raws@),
            row,
            i as int,
        ),
{
    let ghost ks = nodes_v(kids@);
    assert(ks[i as int] == kids@[i as int]@);
    assert(tree::trees_v(raws@)[i as int] == raws@[i as int]@);
    let n = kids.len();
    let k = &kids[i];
    if k.kind != Kind::Leaf || raws[i].style.rot.is_some() {
        return keep(k);
    }
    let p = match known_part(f, k) {
        Some(p) => p,
        None => return keep(k),
    };
    if p.is_connector {
        return face_connector(p, k, raws[i].style.mirror.is_some(), i > 0, i + 1 < n, row);
    }
    let pn = if i > 0 {
        nets_beside(f, kids, i - 1)
    } else {
        Vec::new()
    };
    assert(text::views(pn@) =~= side_nets(*f, ks, i - 1));
    let nn = nets_beside(f, kids, i + 1);
    if !p.two_pin {
        return face_large(p, k, &pn, &nn, row);
    }
    if p.pins.len() < 2 {
        return keep(k);
    }
    if i > 0 {
        assert(ks[i - 1] == kids@[i - 1]@);
    }
    let after_leaf = i > 0 && kids[i - 1].kind == Kind::Leaf;
    face_pair(f, p, k, &pn, &nn, row, after_leaf)
}

pub open spec fn all_faced(f: Frame, kids: Seq<MV>, raws: Seq<TreeV>, row: bool) -> Seq<MV> {
    Seq::new(kids.len(), |i: int| faced(f, kids, raws, row, i))
}

impl MNode {
    pub fn dup(&self) -> (r: MNode)
        ensures
            r@ == self@,
        decreases self,
    {
        let mut children: Vec<MNode> = Vec::new();
        let mut i: usize = 0;
        while i < self.children.len()
            invariant
                i <= self.children@.len(),
                children@.len() == i,
                forall|k: int| 0 <= k < i ==> (#[trigger] children@[k])@ == self.children@[k]@,
            decreases self.children@.len() - i,
        {
            assert(decreases_to!(self => self.children));
            assert(decreases_to!(self.children => self.children@[i as int]));
            children.push(self.children[i].dup());
            i += 1;
        }
        let offsets = match &self.offsets {
            Some(o) => Some(o.clone()),
            None => None,
        };
        let r = MNode {
            kind: self.kind,
            room: self.room,
            part: self.part,
            rot: self.rot,
            mirror: self.mirror.clone(),
            children,
            gap: self.gap,
            align: self.align.clone(),
            offsets,
        };
        proof {
            lemma_node_view(r);
            lemma_node_view(*self);
            assert(nodes_v(r.children@) =~= nodes_v(self.children@));
            assert(offsets_v(r.offsets) == offsets_v(self.offsets));
        }
        assert(r@ =~= self@);
        r
    }
}

/// Turns series two-pin parts whose orientation was not given to their neighbours.
pub fn face_neighbours(f: &Frame, kids: &Vec<MNode>, raws: &Vec<Tree>, row: bool) -> (r: Vec<MNode>)
    requires
        f.wf(),
        raws@.len() == kids@.len(),
    ensures
        nodes_v(r@) == all_faced(*f, nodes_v(kids@), tree::trees_v(raws@), row),
        r@.len() == kids@.len(),
{
    let ghost want = all_faced(*f, nodes_v(kids@), tree::trees_v(raws@), row);
    let mut r: Vec<MNode> = Vec::new();
    let mut i: usize = 0;
    while i < kids.len()
        invariant
            i <= kids@.len(),
            f.wf(),
            raws@.len() == kids@.len(),
            want == all_faced(*f, nodes_v(kids@), tree::trees_v(raws@), row),
            r@.len() == i,
            forall|j: int| 0 <= j < i ==> (#[trigger] r@[j])@ == want[j],
        decreases kids@.len() - i,
    {
        let t = face_one(f, kids, raws, row, i);
        let ghost wanted = turn_of(kids@[i as int]@, t);
        let mut k = kids[i].dup();
        let ghost k0 = k@;
        let ghost ch = k.children;
        proof {
            lemma_node_view(k);
        }
        k.rot = t.rot;
        k.mirror = t.mirror;
        k.room = t.room;
        proof {
            lemma_node_view(k);
        }
        assert(k@ =~= wanted);
        r.push(k);
        i += 1;
    }
    assert(nodes_v(r@) =~= want);
    r
}

// ---------------------------------------------------------------- columns beside pins
/// The line of each signal net of the first `n` pins that point at the column, the first pin of a
/// net counting.
pub open spec fn side_lines(f: Frame, p: PartInst, ic: MV, d: Dir, n: int) -> Seq<(Seq<char>, i64)>
    decreases n,
{
    if n <= 0 {
        Seq::empty()
    } else {
        let m = side_lines(f, p, ic, d, n - 1);
        match orient::pin_net(p, n - 1) {
            Some(net) => if f.signal_nets.has(net) && orient::heading(
                p,
                n - 1,
                ic.rot as int,
                flip_of(ic),
            ) == d && order_map::look(m, net) is None {
                m.push((net, pin_line(p, ic, n - 1, 0)))
            } else {
                m
            },
            None => m,
        }
    }
}

/// The height of a pin over the alignment line of its part, moved by `by`.
pub open spec fn pin_line(p: PartInst, ic: MV, k: int, by: int) -> i64 {
    orient::cut(
        orient::spot(p, k, ic.rot as int, flip_of(ic)).y - (ic.room.ay - ic.room.aay) + by,
    )
}

/// With the lines of further nets whose pins are on the top or bottom edge: just beyond it.
pub open spec fn edge_lines(f: Frame, p: PartInst, ic: MV, m: Seq<(Seq<char>, i64)>, n: int) -> Seq<
    (Seq<char>, i64),
>
    decreases n,
{
    if n <= 0 {
        m
    } else {
        let m1 = edge_lines(f, p, ic, m, n - 1);
        let d = orient::heading(p, n - 1, ic.rot as int, flip_of(ic));
        match orient::pin_net(p, n - 1) {
            Some(net) => if f.signal_nets.has(net) && order_map::look(m1, net) is None && d.0 == 0
                && (d.1 == -1 || d.1 == 1) {
                m1.push((net, pin_line(p, ic, n - 1, d.1 * 508_000)))
            } else {
                m1
            },
            None => m1,
        }
    }
}

/// The signal nets among the first `n` pins noted for a part.
pub open spec fn part_signals(f: Frame, p: PartInst, n: int) -> Seq<Seq<char>>
    decreases n,
{
    if n <= 0 {
        Seq::empty()
    } else {
        let rest = part_signals(f, p, n - 1);
        if f.signal_nets.has(p.pinmap.vals@[n - 1]@) {
            rest.push(p.pinmap.vals@[n - 1]@)
        } else {
            rest
        }
    }
}

/// The signal nets of a node and all below it.
pub open spec fn node_signals(f: Frame, k: MV) -> Seq<Seq<char>>
    decreases k, 0nat,
{
    if k.kind == Kind::Leaf {
        if known(f, k) {
            part_signals(f, part_of(f, k), part_of(f, k).pinmap.vals@.len() as int)
        } else {
            Seq::empty()
        }
    } else {
        signals_in(f, k.children, k.children.len())
    }
}

pub open spec fn signals_in(f: Frame, v: Seq<MV>, n: nat) -> Seq<Seq<char>>
    decreases v, n,
{
    if n == 0 || n > v.len() {
        Seq::empty()
    } else {
        signals_in(f, v, (n - 1) as nat) + node_signals(f, v[n - 1])
    }
}

/// The least line of the first `n` nets.
pub open spec fn least_line(m: Seq<(Seq<char>, i64)>, nets: Seq<Seq<char>>, n: int) -> Option<i64>
    decreases n,
{
    if n <= 0 {
        None
    } else {
        let b = least_line(m, nets, n - 1);
        match order_map::look(m, nets[n - 1]) {
            Some(y) => match b {
                Some(z) => if y < z {
                    Some(y)
                } else {
                    b
                },
                None => Some(y),
            },
            None => b,
        }
    }
}

/// The line a child of a column goes to.
pub open spec fn target(f: Frame, m: Seq<(Seq<char>, i64)>, k: MV) -> Option<i64> {
    let nets = node_signals(f, k);
    least_line(m, nets, nets.len() as int)
}

/// Children placed down a column so far.
#[verifier::ext_equal]
pub struct RunV {
    pub at: i64,
    pub line: Option<i64>,
    pub offs: Seq<i64>,
}

/// The first `n` children placed down a column: in order, at the least where the one before ends,
/// lower where its line asks for it.
pub open spec fn run_down(f: Frame, m: Seq<(Seq<char>, i64)>, kids: Seq<MV>, gap: i64, n: int) -> RunV
    decreases n,
{
    if n <= 0 {
        RunV { at: 0, line: None, offs: Seq::empty() }
    } else {
        let b = run_down(f, m, kids, gap, n - 1);
        let k = kids[n - 1];
        let (y, line) = match target(f, m, k) {
            Some(t) => match b.line {
                None => (b.at, Some(orient::cut(b.at + k.room.ay - t))),
                Some(l) => (
                    geom::hi(b.at as int, orient::cut(l + t - k.room.ay) as int) as i64,
                    b.line,
                ),
            },
            None => (b.at, b.line),
        };
        RunV { at: orient::cut(y + k.room.h + gap), line, offs: b.offs.push(y) }
    }
}

/// A column whose children stand on the lines of the pins beside it; `None` where none of them
/// connects to a pin.
pub open spec fn on_lines(f: Frame, col: MV, ic: MV, left: bool) -> Option<MV> {
    let p = part_of(f, ic);
    let n = p.pins@.len() as int;
    let d = if left {
        (1i32, 0i32)
    } else {
        (-1i32, 0i32)
    };
    let m = edge_lines(f, p, ic, side_lines(f, p, ic, d, n), n);
    let r = run_down(f, m, col.children, col.gap, col.children.len() as int);
    match r.line {
        None => None,
        Some(l) => Some(
            MV {
                offsets: Some(r.offs),
                room: Room { h: orient::cut(r.at - col.gap), ay: l, ..col.room },
                ..col
            },
        ),
    }
}

/// Whether a node is a part that columns line up with.
pub open spec fn is_anchor(f: Frame, k: MV) -> bool {
    k.kind == Kind::Leaf && known(f, k) && part_of(f, k).pins@.len() >= 3 && !part_of(
        f,
        k,
    ).is_connector
}

/// A child of a row, a column lined up with the pins of a part beside it: the one before it first.
pub open spec fn lined_up(f: Frame, kids: Seq<MV>, i: int) -> MV {
    let k = kids[i];
    if k.kind != Kind::Col {
        k
    } else {
        let a = if i > 0 && is_anchor(f, kids[i - 1]) {
            on_lines(f, k, kids[i - 1], true)
        } else {
            None
        };
        let b = if i + 1 < kids.len() && is_anchor(f, kids[i + 1]) {
            on_lines(f, k, kids[i + 1], false)
        } else {
            None
        };
        match a {
            Some(c) => c,
            None => match b {
                Some(c) => c,
                None => k,
            },
        }
    }
}

pub open spec fn all_lined_up(f: Frame, kids: Seq<MV>) -> Seq<MV> {
    Seq::new(kids.len(), |i: int| lined_up(f, kids, i))
}

pub open spec fn lines_v(v: Seq<(String, i64)>) -> Seq<(Seq<char>, i64)> {
    Seq::new(v.len(), |i: int| (v[i].0@, v[i].1))
}

fn find_line(v: &Vec<(String, i64)>, k: &str) -> (r: Option<i64>)
    ensures
        r == order_map::look(lines_v(v@), k@),
{
    let ghost m = lines_v(v@);
    let mut i: usize = 0;
    while i < v.len()
        invariant
            i <= v@.len(),
            m == lines_v(v@),
            order_map::seek(m, k@, 0) == order_map::seek(m, k@, i as int),
        decreases v@.len() - i,
    {
        assert(m[i as int] == (v@[i as int].0@, v@[i as int].1));
        if same(v[i].0.as_str(), k) {
            return Some(v[i].1);
        }
        i += 1;
    }
    None
}

fn line_of_pin(p: &PartInst, ic: &MNode, k: usize, by: i64) -> (r: i64)
    requires
        p.wf(),
        k < p.pins@.len(),
    ensures
        r == pin_line(*p, ic@, k as int, by as int),
{
    let s = spot_at(p, k, ic.rot, ic.mirror.as_str());
    cut_wide(s.y as i128 - (ic.room.ay as i128 - ic.room.aay as i128) + by as i128)
}

fn find_lines(f: &Frame, p: &PartInst, ic: &MNode, left: bool) -> (r: Vec<(String, i64)>)
    requires
        p.wf(),
        f.wf(),
    ensures
        ({
            let n = p.pins@.len() as int;
            let d = if left {
                (1i32, 0i32)
            } else {
                (-1i32, 0i32)
            };
            lines_v(r@) == edge_lines(*f, *p, ic@, side_lines(*f, *p, ic@, d, n), n)
        }),
{
    let d: Dir = if left { (1, 0) } else { (-1, 0) };
    let mut m: Vec<(String, i64)> = Vec::new();
    let mut k: usize = 0;
    assert(lines_v(m@) =~= side_lines(*f, *p, ic@, d, 0));
    while k < p.pins.len()
        invariant
            k <= p.pins@.len(),
            p.wf(),
            f.wf(),
            lines_v(m@) == side_lines(*f, *p, ic@, d, k as int),
        decreases p.pins@.len() - k,
    {
        let ghost m0 = lines_v(m@);
        let e = p.pin_dir_at(&p.pins[k], ic.rot, ic.mirror.as_str());
        match net_at(p, k) {
            Some(net) => {
                if f.signal_nets.contains_key(net.as_str()) && e.0 == d.0 && e.1 == d.1
                    && find_line(&m, net.as_str()).is_none() {
                    let y = line_of_pin(p, ic, k, 0);
                    m.push((net.clone(), y));
                    assert(lines_v(m@) =~= m0.push((net@, y)));
                }
            },
            None => {},
        }
        k += 1;
    }
    let ghost base = lines_v(m@);
    k = 0;
    while k < p.pins.len()
        invariant
            k <= p.pins@.len(),
            p.wf(),
            f.wf(),
            lines_v(m@) == edge_lines(*f, *p, ic@, base, k as int),
        decreases p.pins@.len() - k,
    {
        let ghost m0 = lines_v(m@);
        let e = p.pin_dir_at(&p.pins[k], ic.rot, ic.mirror.as_str());
        match net_at(p, k) {
            Some(net) => {
                if f.signal_nets.contains_key(net.as_str()) && find_line(
                    &m,
                    net.as_str(),
                ).is_none() && e.0 == 0 && (e.1 == -1 || e.1 == 1) {
                    let y = line_of_pin(p, ic, k, e.1 as i64 * 508_000);
                    m.push((net.clone(), y));
                    assert(lines_v(m@) =~= m0.push((net@, y)));
                }
            },
            None => {},
        }
        k += 1;
    }
    m
}

fn list_part_signals(f: &Frame, p: &PartInst) -> (r: Vec<String>)
    requires
        p.wf(),
        f.wf(),
    ensures
        text::views(r@) == part_signals(*f, *p, p.pinmap.vals@.len() as int),
{
    let mut r: Vec<String> = Vec::new();
    let vals = p.pinmap.values();
    let mut k: usize = 0;
    assert(text::views(r@) =~= part_signals(*f, *p, 0));
    while k < vals.len()
        invariant
            k <= vals@.len(),
            vals@ == p.pinmap.vals@,
            f.wf(),
            text::views(r@) == part_signals(*f, *p, k as int),
        decreases vals@.len() - k,
    {
        let ghost r0 = text::views(r@);
        if f.signal_nets.contains_key(vals[k].as_str()) {
            r.push(vals[k].clone());
            assert(text::views(r@) =~= r0.push(vals@[k as int]@));
        }
        k += 1;
    }
    r
}

/// Signal nets of a node and all below it.
pub fn node_nets(f: &Frame, k: &MNode) -> (r: Vec<String>)
    requires
        f.wf(),
    ensures
        text::views(r@) == node_signals(*f, k@),
    decreases k,
{
    let mut r: Vec<String> = Vec::new();
    if k.kind == Kind::Leaf {
        match known_part(f, k) {
            Some(p) => return list_part_signals(f, p),
            None => {
                assert(text::views(r@) =~= Seq::empty());
                return r;
            },
        }
    }
    proof {
        lemma_node_view(*k);
    }
    let ghost kv = k@.children;
    let mut i: usize = 0;
    assert(text::views(r@) =~= signals_in(*f, kv, 0));
    while i < k.children.len()
        invariant
            i <= k.children@.len(),
            f.wf(),
            kv == nodes_v(k.children@),
            text::views(r@) == signals_in(*f, kv, i as nat),
        decreases k.children@.len() - i,
    {
        assert(decreases_to!(k => k.children));
        assert(decreases_to!(k.children => k.children@[i as int]));
        assert(kv[i as int] == k.children@[i as int]@);
        let mut more = node_nets(f, &k.children[i]);
        let ghost r0 = r@;
        let ghost m0 = more@;
        r.append(&mut more);
        assert(r@ =~= r0 + m0);
        assert(text::views(r@) =~= text::views(r0) + text::views(m0));
        i += 1;
    }
    r
}

fn find_target(f: &Frame, m: &Vec<(String, i64)>, k: &MNode) -> (r: Option<i64>)
    requires
        f.wf(),
    ensures
        r == target(*f, lines_v(m@), k@),
{
    let nets = node_nets(f, k);
    let ghost ns = text::views(nets@);
    let ghost mv = lines_v(m@);
    let mut b: Option<i64> = None;
    let mut i: usize = 0;
    while i < nets.len()
        invariant
            i <= nets@.len(),
            ns == text::views(nets@),
            mv == lines_v(m@),
            b == least_line(mv, ns, i as int),
        decreases nets@.len() - i,
    {
        assert(ns[i as int] == nets@[i as int]@);
        match find_line(m, nets[i].as_str()) {
            Some(y) => {
                match b {
                    Some(z) => {
                        if y < z {
                            b = Some(y);
                        }
                    },
                    None => {
                        b = Some(y);
                    },
                }
            },
            None => {},
        }
        i += 1;
    }
    b
}

/// Moves the children of a column onto the lines of the pins beside it, where they connect to some.
pub fn align_col_to_pins(f: &Frame, col: &MNode, ic: &MNode, left: bool) -> (r: Option<MNode>)
    requires
        f.wf(),
        known(*f, ic@),
    ensures
        match r {
            Some(c) => on_lines(*f, col@, ic@, left) == Some(c@),
            None => on_lines(*f, col@, ic@, left) is None,
        },
{
    let p = match known_part(f, ic) {
        Some(p) => p,
        None => return None,
    };
    let m = find_lines(f, p, ic, left);
    let ghost mv = lines_v(m@);
    proof {
        lemma_node_view(*col);
    }
    let ghost kv = col@.children;
    let mut at: i64 = 0;
    let mut line: Option<i64> = None;
    let mut offs: Vec<i64> = Vec::new();
    let mut i: usize = 0;
    while i < col.children.len()
        invariant
            i <= col.children@.len(),
            f.wf(),
            mv == lines_v(m@),
            kv == nodes_v(col.children@),
            (RunV { at, line, offs: offs@ }) =~= run_down(*f, mv, kv, col.gap, i as int),
        decreases col.children@.len() - i,
    {
        let k = &col.children[i];
        assert(kv[i as int] == k@);
        let ghost b = run_down(*f, mv, kv, col.gap, i as int);
        let mut y = at;
        match find_target(f, &m, k) {
            Some(t) => {
                match line {
                    None => {
                        line = Some(cut_wide(y as i128 + k.room.ay as i128 - t as i128));
                    },
                    Some(l) => {
                        y = max_i(at, cut_wide(l as i128 + t as i128 - k.room.ay as i128));
                    },
                }
            },
            None => {},
        }
        offs.push(y);
        at = cut_wide(y as i128 + k.room.h as i128 + col.gap as i128);
        assert(offs@ =~= b.offs.push(y));
        i += 1;
    }
    match line {
        None => None,
        Some(l) => {
            let mut c = col.dup();
            c.offsets = Some(offs);
            c.room = Room { h: cut_wide(at as i128 - col.gap as i128), ay: l, ..col.room };
            proof {
                lemma_node_view(c);
            }
            assert(c@ =~= on_lines(*f, col@, ic@, left)->0);
            Some(c)
        },
    }
}

fn can_anchor(f: &Frame, k: &MNode) -> (r: bool)
    requires
        f.wf(),
    ensures
        r == is_anchor(*f, k@),
{
    match known_part(f, k) {
        Some(p) => k.kind == Kind::Leaf && p.pins.len() >= 3 && !p.is_connector,
        None => false,
    }
}

fn line_up_one(f: &Frame, kids: &Vec<MNode>, i: usize) -> (r: MNode)
    requires
        f.wf(),
        i < kids@.len(),
    ensures
        r@ == lined_up(*f, nodes_v(kids@), i as int),
{
    let ghost ks = nodes_v(kids@);
    assert(ks[i as int] == kids@[i as int]@);
    let n = kids.len();
    if kids[i].kind != Kind::Col {
        return kids[i].dup();
    }
    if i > 0 {
        assert(ks[i - 1] == kids@[i - 1]@);
        if can_anchor(f, &kids[i - 1]) {
            match align_col_to_pins(f, &kids[i], &kids[i - 1], true) {
                Some(c) => return c,
                None => {},
            }
        }
    }
    if i + 1 < n {
        assert(ks[i + 1] == kids@[i + 1]@);
        if can_anchor(f, &kids[i + 1]) {
            match align_col_to_pins(f, &kids[i], &kids[i + 1], false) {
                Some(c) => return c,
                None => {},
            }
        }
    }
    kids[i].dup()
}

pub(crate) fn line_up(f: &Frame, kids: &Vec<MNode>) -> (r: Vec<MNode>)
    requires
        f.wf(),
    ensures
        nodes_v(r@) == all_lined_up(*f, nodes_v(kids@)),
        r@.len() == kids@.len(),
{
    let ghost want = all_lined_up(*f, nodes_v(kids@));
    let mut r: Vec<MNode> = Vec::new();
    let mut i: usize = 0;
    while i < kids.len()
        invariant
            i <= kids@.len(),
            f.wf(),
            want == all_lined_up(*f, nodes_v(kids@)),
            r@.len() == i,
            forall|j: int| 0 <= j < i ==> (#[trigger] r@[j])@ == want[j],
        decreases kids@.len() - i,
    {
        let k = line_up_one(f, kids, i);
        assert(k@ == want[i as int]);
        r.push(k);
        i += 1;
    }
    assert(nodes_v(r@) =~= want);
    r
}

} // verus!
