//! How the leaves of a layout tree are turned, and the room they take.
use crate::engine;
use crate::engine::PartInst;
use crate::geo;
use crate::geo::is_gnd;
use crate::geom;
use crate::geom::{abs_i, floor_mod, min_i, Dir, Mirror, Pt};
use crate::group::Frame;
use crate::symlib;
use crate::text;
use crate::text::Line;
use crate::tree::{Style, StyleV};
use vstd::prelude::*;

verus! {

/// The largest length and distance of a measured tree; longer ones are cut to it.
pub const LIMIT: i64 = 0x80_0000_0000;

/// Points of two pins closer than this lie on one line.
pub const SAME_LINE: i64 = 1_270;

pub open spec fn fits(v: int) -> bool {
    -LIMIT <= v <= LIMIT
}

pub open spec fn cut(v: int) -> i64 {
    (if v > LIMIT {
        LIMIT as int
    } else if v < -LIMIT {
        -LIMIT
    } else {
        v
    }) as i64
}

/// Cuts a length to the largest that a measured tree holds.
pub fn cut_off(v: i64) -> (r: i64)
    ensures
        r == cut(v as int),
        fits(r as int),
{
    if v > LIMIT {
        LIMIT
    } else if v < -LIMIT {
        -LIMIT
    } else {
        v
    }
}

/// The net, `nc` or `float` of the pin at a position.
pub open spec fn pin_net(p: PartInst, k: int) -> Option<Seq<char>> {
    p.net_spec(p.pins@[k].number@)
}

pub(crate) fn net_at(p: &PartInst, k: usize) -> (r: Option<&String>)
    requires
        p.wf(),
        k < p.pins@.len(),
    ensures
        match r {
            Some(n) => pin_net(*p, k as int) == Some(n@),
            None => pin_net(*p, k as int) is None,
        },
{
    p.pinmap.get(p.pins[k].number.as_str())
}

/// Whether a net of the group is a rail: known, but no signal.
pub open spec fn rail(f: Frame, net: Seq<char>) -> bool {
    f.nets.has(net) && !f.signal_nets.has(net)
}

pub fn is_rail(f: &Frame, net: &str) -> (r: bool)
    requires
        f.wf(),
    ensures
        r == rail(*f, net@),
{
    f.nets.contains_key(net) && !f.signal_nets.contains_key(net)
}

pub open spec fn origin() -> Pt {
    Pt { x: 0, y: 0 }
}

/// Where a pin of a part at the origin ends.
pub open spec fn spot(p: PartInst, k: int, rot: int, m: Mirror) -> Pt {
    symlib::pin_at(p.pins@[k], origin(), rot, m)
}

pub open spec fn heading(p: PartInst, k: int, rot: int, m: Mirror) -> Dir {
    symlib::pin_dir_spec(p.pins@[k], rot, m)
}

pub(crate) fn spot_at(p: &PartInst, k: usize, rot: i32, mirror: &str) -> (r: Pt)
    requires
        p.wf(),
        k < p.pins@.len(),
    ensures
        r == spot(*p, k as int, rot as int, symlib::mirror_spec(mirror@)),
        symlib::tip_pt(r),
{
    p.pin_pos_at(&p.pins[k], Pt { x: 0, y: 0 }, rot, mirror)
}

/// Whether the first two pins lie on a horizontal line.
pub open spec fn lies_flat(p: PartInst, rot: int, m: Mirror) -> bool {
    geom::mag(spot(p, 0, rot, m).y - spot(p, 1, rot, m).y) < SAME_LINE
}

/// Whether the first two pins lie on a vertical line.
pub open spec fn stands_up(p: PartInst, rot: int, m: Mirror) -> bool {
    geom::mag(spot(p, 0, rot, m).x - spot(p, 1, rot, m).x) < SAME_LINE
}

pub(crate) fn is_flat(p: &PartInst, rot: i32, mirror: &str) -> (r: bool)
    requires
        p.wf(),
        p.pins@.len() >= 2,
    ensures
        r == lies_flat(*p, rot as int, symlib::mirror_spec(mirror@)),
{
    let a = spot_at(p, 0, rot, mirror);
    let b = spot_at(p, 1, rot, mirror);
    abs_i(a.y - b.y) < SAME_LINE
}

pub(crate) fn is_upright(p: &PartInst, rot: i32, mirror: &str) -> (r: bool)
    requires
        p.wf(),
        p.pins@.len() >= 2,
    ensures
        r == stands_up(*p, rot as int, symlib::mirror_spec(mirror@)),
{
    let a = spot_at(p, 0, rot, mirror);
    let b = spot_at(p, 1, rot, mirror);
    abs_i(a.x - b.x) < SAME_LINE
}

// ---------------------------------------------------------------- turning two-pin parts
pub open spec fn rot_if(p: PartInst, flat: bool, rot: i32) -> Seq<i32> {
    if lies_flat(p, rot as int, Mirror::Plain) == flat {
        seq![rot]
    } else {
        Seq::empty()
    }
}

/// The rotations that put the pins of a two-pin part on a horizontal or a vertical line, the least
/// first.
pub open spec fn rots(p: PartInst, flat: bool) -> Seq<i32> {
    if p.pins@.len() < 2 {
        Seq::empty()
    } else {
        rot_if(p, flat, 0) + rot_if(p, flat, 90) + rot_if(p, flat, 180) + rot_if(p, flat, 270)
    }
}

proof fn lemma_plain_mirror()
    ensures
        symlib::mirror_spec(""@) == Mirror::Plain,
{
    reveal_strlit("");
    reveal_strlit("x");
    reveal_strlit("y");
    assert(""@.len() != "x"@.len());
    assert(""@.len() != "y"@.len());
}

/// Rotations that put the pins of a two-pin part on a vertical (`v`) or horizontal (`h`) line.
pub fn rots_with_axis(p: &PartInst, flat: bool) -> (r: Vec<i32>)
    requires
        p.wf(),
    ensures
        r@ == rots(*p, flat),
{
    let mut out: Vec<i32> = Vec::new();
    if p.pins.len() < 2 {
        return out;
    }
    proof {
        lemma_plain_mirror();
    }
    if is_flat(p, 0, "") == flat {
        out.push(0);
    }
    assert(out@ =~= rot_if(*p, flat, 0));
    if is_flat(p, 90, "") == flat {
        out.push(90);
    }
    assert(out@ =~= rot_if(*p, flat, 0) + rot_if(*p, flat, 90));
    if is_flat(p, 180, "") == flat {
        out.push(180);
    }
    assert(out@ =~= rot_if(*p, flat, 0) + rot_if(*p, flat, 90) + rot_if(*p, flat, 180));
    if is_flat(p, 270, "") == flat {
        out.push(270);
    }
    assert(out@ =~= rots(*p, flat));
    out
}

/// A rotation by half a turn more.
pub open spec fn half_turn(rot: int) -> int {
    (rot + 180) % 360
}

pub fn turn_over(rot: i32) -> (r: i32)
    ensures
        r == half_turn(rot as int),
{
    floor_mod(rot as i64 + 180, 360) as i32
}

pub open spec fn lists(rs: Seq<i32>, rot: int) -> bool {
    exists|i: int| 0 <= i < rs.len() && #[trigger] rs[i] == rot
}

/// The rotation meant by a listed one: 0 stands and 90 lies, however the library draws the part.
pub open spec fn meant_rot(p: PartInst, rot: int) -> int {
    let rs = rots(p, rot == 90 || rot == 270);
    if rs.len() == 0 || lists(rs, rot) {
        rot
    } else if rot == 180 || rot == 270 {
        half_turn(rs[0] as int)
    } else {
        rs[0] as int
    }
}

pub fn explicit_two_pin_rot(p: &PartInst, rot: i32) -> (r: i32)
    requires
        p.wf(),
    ensures
        r == meant_rot(*p, rot as int),
{
    let rs = rots_with_axis(p, rot == 90 || rot == 270);
    if rs.len() == 0 {
        return rot;
    }
    let mut i: usize = 0;
    while i < rs.len()
        invariant
            i <= rs@.len(),
            rs@ == rots(*p, rot as int == 90 || rot as int == 270),
            rs@.len() > 0,
            forall|j: int| 0 <= j < i ==> #[trigger] rs@[j] != rot,
        decreases rs@.len() - i,
    {
        if rs[i] == rot {
            assert(rs@[i as int] == rot);
            assert(lists(rs@, rot as int));
            return rot;
        }
        i += 1;
    }
    if rot == 180 || rot == 270 {
        turn_over(rs[0])
    } else {
        rs[0]
    }
}

// ---------------------------------------------------------------- default orientation
pub struct PoseV {
    pub rot: i32,
    pub mirror: Seq<char>,
}

/// How badly the rail pins among the first `n` point: nothing for a ground pin down or a supply pin
/// up, a little for one pointing sideways.
pub open spec fn misfit(p: PartInst, f: Frame, rot: int, m: Mirror, n: int) -> int
    decreases n,
{
    if n <= 0 {
        0
    } else {
        misfit(p, f, rot, m, n - 1) + match pin_net(p, n - 1) {
            Some(net) => if rail(f, net) {
                let d = heading(p, n - 1, rot, m);
                if d == (if geo::gnd_spec(net) {
                    (0i32, 1i32)
                } else {
                    (0i32, -1i32)
                }) {
                    0int
                } else if d.1 == 0 {
                    12
                } else {
                    40
                }
            } else {
                0
            },
            None => 0,
        }
    }
}

/// The misfit of one of the four upright poses; turning it over counts two, mirroring it one.
pub open spec fn pose_cost(p: PartInst, f: Frame, over: bool, flipped: bool) -> int {
    misfit(
        p,
        f,
        if over {
            180
        } else {
            0
        },
        if flipped {
            Mirror::Y
        } else {
            Mirror::Plain
        },
        p.pins@.len() as int,
    ) + (if over {
        2int
    } else {
        0
    }) + (if flipped {
        1int
    } else {
        0
    })
}

pub open spec fn pose_of(over: bool, flipped: bool) -> PoseV {
    PoseV {
        rot: if over {
            180
        } else {
            0
        },
        mirror: if flipped {
            "y"@
        } else {
            ""@
        },
    }
}

/// The best upright pose of a transistor: supply pins up, ground pins down, the first of equals.
pub open spec fn upright_pose(p: PartInst, f: Frame) -> PoseV {
    let a = pose_cost(p, f, false, false);
    let b = pose_cost(p, f, false, true);
    let c = pose_cost(p, f, true, false);
    let d = pose_cost(p, f, true, true);
    let ab = geom::lo(a, b);
    let abc = geom::lo(ab, c);
    if d < abc {
        pose_of(true, true)
    } else if c < ab {
        pose_of(true, false)
    } else if b < a {
        pose_of(false, true)
    } else {
        pose_of(false, false)
    }
}

/// Whether a pin on a rail points the way rails are drawn: ground down, a supply up.
pub open spec fn points_well(p: PartInst, f: Frame, k: int, rot: int, m: Mirror) -> bool {
    match pin_net(p, k) {
        Some(net) => rail(f, net) && heading(p, k, rot, m) == (if geo::gnd_spec(net) {
            (0i32, 1i32)
        } else {
            (0i32, -1i32)
        }),
        None => false,
    }
}

/// Whether a pin on a rail points the wrong way: ground up, or a supply down.
pub open spec fn points_badly(p: PartInst, f: Frame, k: int, rot: int, m: Mirror) -> bool {
    match pin_net(p, k) {
        Some(net) => rail(f, net) && heading(p, k, rot, m) == (if geo::gnd_spec(net) {
            (0i32, -1i32)
        } else {
            (0i32, 1i32)
        }),
        None => false,
    }
}

/// The first rotation in which some rail pin points well.
pub open spec fn first_good(p: PartInst, f: Frame, rs: Seq<i32>, i: int) -> Option<i32>
    decreases rs.len() - i,
{
    if i < 0 || i >= rs.len() {
        None
    } else if exists|k: int|
        0 <= k < p.pins@.len() && #[trigger] points_well(p, f, k, rs[i] as int, Mirror::Plain) {
        Some(rs[i])
    } else {
        first_good(p, f, rs, i + 1)
    }
}

/// Pins among the first `n` that are on rails.
pub open spec fn rail_nets(p: PartInst, f: Frame, n: int) -> Seq<Seq<char>>
    decreases n,
{
    if n <= 0 {
        Seq::empty()
    } else {
        let rest = rail_nets(p, f, n - 1);
        match pin_net(p, n - 1) {
            Some(net) => if rail(f, net) {
                rest.push(net)
            } else {
                rest
            },
            None => rest,
        }
    }
}

pub open spec fn any_ground(v: Seq<Seq<char>>) -> bool {
    exists|i: int| 0 <= i < v.len() && geo::gnd_spec(#[trigger] v[i])
}

pub open spec fn first_rot(rs: Seq<i32>) -> i32 {
    if rs.len() > 0 {
        rs[0]
    } else {
        0
    }
}

/// The orientation of a leaf that lists none: connectors and large parts as drawn, transistors by
/// their rails, shunts standing, series parts along the row.
pub open spec fn default_pose(p: PartInst, f: Frame, in_row: bool) -> PoseV {
    if p.is_connector || p.pins@.len() > 4 {
        PoseV { rot: 0, mirror: ""@ }
    } else if !p.two_pin {
        upright_pose(p, f)
    } else {
        let rails = rail_nets(p, f, p.pins@.len() as int);
        if any_ground(rails) || rails.len() == 2 || !in_row {
            let rs = rots(p, false);
            PoseV {
                rot: match first_good(p, f, rs, 0) {
                    Some(r) => r,
                    None => first_rot(rs),
                },
                mirror: ""@,
            }
        } else {
            PoseV { rot: first_rot(rots(p, true)), mirror: ""@ }
        }
    }
}

fn find_misfit(p: &PartInst, f: &Frame, rot: i32, mirror: &str) -> (r: u128)
    requires
        p.wf(),
        f.wf(),
    ensures
        r == misfit(*p, *f, rot as int, symlib::mirror_spec(mirror@), p.pins@.len() as int),
        r <= 40 * usize::MAX,
{
    let ghost m = symlib::mirror_spec(mirror@);
    let mut s: u128 = 0;
    let mut k: usize = 0;
    while k < p.pins.len()
        invariant
            k <= p.pins@.len(),
            p.wf(),
            f.wf(),
            m == symlib::mirror_spec(mirror@),
            s == misfit(*p, *f, rot as int, m, k as int),
            s <= 40 * k,
        decreases p.pins@.len() - k,
    {
        match net_at(p, k) {
            Some(net) => {
                if is_rail(f, net.as_str()) {
                    let d = p.pin_dir_at(&p.pins[k], rot, mirror);
                    let down: i32 = if is_gnd(net.as_str()) { 1 } else { -1 };
                    if d.0 == 0 && d.1 == down {
                    } else if d.1 == 0 {
                        s = s + 12;
                    } else {
                        s = s + 40;
                    }
                }
            },
            None => {},
        }
        k += 1;
    }
    s
}

fn upright(p: &PartInst, f: &Frame) -> (r: (i32, String))
    requires
        p.wf(),
        f.wf(),
    ensures
        r.0 == upright_pose(*p, *f).rot,
        r.1@ == upright_pose(*p, *f).mirror,
{
    proof {
        lemma_plain_mirror();
        reveal_strlit("x");
        reveal_strlit("y");
        assert("x"@[0] != "y"@[0]);
        assert(symlib::mirror_spec("y"@) == Mirror::Y);
    }
    let a: u128 = find_misfit(p, f, 0, "");
    let b: u128 = find_misfit(p, f, 0, "y") + 1;
    let c: u128 = find_misfit(p, f, 180, "") + 2;
    let d: u128 = find_misfit(p, f, 180, "y") + 3;
    let ab: u128 = if a <= b { a } else { b };
    let abc: u128 = if ab <= c { ab } else { c };
    if d < abc {
        (180, "y".to_owned())
    } else if c < ab {
        (180, "".to_owned())
    } else if b < a {
        (0, "y".to_owned())
    } else {
        (0, "".to_owned())
    }
}

fn is_good(p: &PartInst, f: &Frame, rot: i32) -> (r: bool)
    requires
        p.wf(),
        f.wf(),
    ensures
        r == exists|k: int|
            0 <= k < p.pins@.len() && #[trigger] points_well(
                *p,
                *f,
                k,
                rot as int,
                Mirror::Plain,
            ),
{
    proof {
        lemma_plain_mirror();
    }
    let mut k: usize = 0;
    while k < p.pins.len()
        invariant
            k <= p.pins@.len(),
            p.wf(),
            f.wf(),
            symlib::mirror_spec(""@) == Mirror::Plain,
            forall|j: int|
                0 <= j < k ==> !#[trigger] points_well(*p, *f, j, rot as int, Mirror::Plain),
        decreases p.pins@.len() - k,
    {
        match net_at(p, k) {
            Some(net) => {
                let d = p.pin_dir_at(&p.pins[k], rot, "");
                let down: i32 = if is_gnd(net.as_str()) { 1 } else { -1 };
                if is_rail(f, net.as_str()) && d.0 == 0 && d.1 == down {
                    assert(points_well(*p, *f, k as int, rot as int, Mirror::Plain));
                    return true;
                }
            },
            None => {},
        }
        k += 1;
    }
    false
}

pub(crate) fn list_rails(p: &PartInst, f: &Frame) -> (r: Vec<String>)
    requires
        p.wf(),
        f.wf(),
    ensures
        text::views(r@) == rail_nets(*p, *f, p.pins@.len() as int),
{
    let mut r: Vec<String> = Vec::new();
    let mut k: usize = 0;
    assert(text::views(r@) =~= rail_nets(*p, *f, 0));
    while k < p.pins.len()
        invariant
            k <= p.pins@.len(),
            p.wf(),
            f.wf(),
            text::views(r@) == rail_nets(*p, *f, k as int),
        decreases p.pins@.len() - k,
    {
        let ghost r0 = text::views(r@);
        match net_at(p, k) {
            Some(net) => {
                if is_rail(f, net.as_str()) {
                    r.push(net.clone());
                    assert(text::views(r@) =~= r0.push(net@));
                }
            },
            None => {},
        }
        k += 1;
    }
    r
}

fn has_ground(v: &Vec<String>) -> (r: bool)
    ensures
        r == any_ground(text::views(v@)),
{
    let ghost s = text::views(v@);
    let mut i: usize = 0;
    while i < v.len()
        invariant
            i <= v@.len(),
            s == text::views(v@),
            forall|j: int| 0 <= j < i ==> !geo::gnd_spec(#[trigger] s[j]),
        decreases v@.len() - i,
    {
        assert(s[i as int] == v@[i as int]@);
        if is_gnd(v[i].as_str()) {
            return true;
        }
        i += 1;
    }
    false
}

/// The orientation of a leaf that lists none.
pub fn default_orient(p: &PartInst, f: &Frame, in_row: bool) -> (r: (i32, String))
    requires
        p.wf(),
        f.wf(),
    ensures
        r.0 == default_pose(*p, *f, in_row).rot,
        r.1@ == default_pose(*p, *f, in_row).mirror,
{
    if p.is_connector || p.pins.len() > 4 {
        return (0, "".to_owned());
    }
    if !p.two_pin {
        return upright(p, f);
    }
    let rails = list_rails(p, f);
    assert(text::views(rails@).len() == rails@.len());
    if has_ground(&rails) || rails.len() == 2 || !in_row {
        let rs = rots_with_axis(p, false);
        let mut i: usize = 0;
        while i < rs.len()
            invariant
                i <= rs@.len(),
                p.wf(),
                f.wf(),
                !(p.is_connector || p.pins@.len() > 4),
                p.two_pin,
                text::views(rails@) == rail_nets(*p, *f, p.pins@.len() as int),
                any_ground(text::views(rails@)) || text::views(rails@).len() == 2 || !in_row,
                rs@ == rots(*p, false),
                first_good(*p, *f, rs@, 0) == first_good(*p, *f, rs@, i as int),
            decreases rs@.len() - i,
        {
            if is_good(p, f, rs[i]) {
                return (rs[i], "".to_owned());
            }
            i += 1;
        }
        if rs.len() > 0 {
            (rs[0], "".to_owned())
        } else {
            (0, "".to_owned())
        }
    } else {
        let rs = rots_with_axis(p, true);
        if rs.len() > 0 {
            (rs[0], "".to_owned())
        } else {
            (0, "".to_owned())
        }
    }
}

// ---------------------------------------------------------------- room
/// The box of a measured node: its size, its alignment lines and its anchor.
#[derive(Clone, Copy, Debug, PartialEq, Eq, Structural)]
pub struct Room {
    pub w: i64,
    pub h: i64,
    pub ax: i64,
    pub ay: i64,
    pub aax: i64,
    pub aay: i64,
}

impl Room {
    pub open spec fn fits(&self) -> bool {
        &&& fits(self.w as int)
        &&& fits(self.h as int)
        &&& fits(self.ax as int)
        &&& fits(self.ay as int)
        &&& fits(self.aax as int)
        &&& fits(self.aay as int)
    }
}

/// The box of a leaf with its anchor as alignment lines.
pub open spec fn leaf_box_spec(p: PartInst, rot: int, m: Mirror) -> Room {
    let e = engine::extent_spec(p, origin(), rot, m, true);
    Room {
        w: cut(e.x1 - e.x0),
        h: cut(e.y1 - e.y0),
        ax: cut(-e.x0),
        ay: cut(-e.y0),
        aax: cut(-e.x0),
        aay: cut(-e.y0),
    }
}

/// The box of a leaf in a row or a column: a two-pin part that stands across the line is aligned on
/// its near pin.
pub open spec fn leaf_room(p: PartInst, rot: int, m: Mirror, in_row: bool) -> Room {
    let b = leaf_box_spec(p, rot, m);
    if !p.two_pin || p.pins@.len() < 2 {
        b
    } else if in_row && stands_up(p, rot, m) {
        Room {
            ay: cut(b.aay + geom::lo(spot(p, 0, rot, m).y as int, spot(p, 1, rot, m).y as int)),
            ..b
        }
    } else if !in_row && !stands_up(p, rot, m) {
        Room {
            ax: cut(b.aax + geom::lo(spot(p, 0, rot, m).x as int, spot(p, 1, rot, m).x as int)),
            ..b
        }
    } else {
        b
    }
}

pub fn leaf_box(p: &PartInst, rot: i32, mirror: &str) -> (r: Room)
    requires
        p.wf(),
    ensures
        r == leaf_box_spec(*p, rot as int, symlib::mirror_spec(mirror@)),
        r.fits(),
{
    let e = p.extent_of(Pt { x: 0, y: 0 }, rot, mirror);
    let ax = cut_off(-e.x0);
    let ay = cut_off(-e.y0);
    Room { w: cut_off(e.x1 - e.x0), h: cut_off(e.y1 - e.y0), ax, ay, aax: ax, aay: ay }
}

/// The box of a leaf with its alignment lines in a row or a column.
pub fn align_line(p: &PartInst, rot: i32, mirror: &str, in_row: bool) -> (r: Room)
    requires
        p.wf(),
    ensures
        r == leaf_room(*p, rot as int, symlib::mirror_spec(mirror@), in_row),
        r.fits(),
{
    let b = leaf_box(p, rot, mirror);
    if !p.two_pin || p.pins.len() < 2 {
        return b;
    }
    let up = is_upright(p, rot, mirror);
    let s0 = spot_at(p, 0, rot, mirror);
    let s1 = spot_at(p, 1, rot, mirror);
    if in_row && up {
        Room { ay: cut_off(b.aay + min_i(s0.y, s1.y)), ..b }
    } else if !in_row && !up {
        Room { ax: cut_off(b.aax + min_i(s0.x, s1.x)), ..b }
    } else {
        b
    }
}

// ---------------------------------------------------------------- leaves
/// What becomes of a leaf: its orientation, what there is to say, and whether the orientation it
/// lists is dropped.
pub struct LeafV {
    pub rot: i32,
    pub mirror: Seq<char>,
    pub notes: Seq<Seq<char>>,
    pub drop_rot: bool,
}

/// The first pin from `k` on that points the wrong way.
pub open spec fn first_bad(p: PartInst, f: Frame, rot: int, m: Mirror, k: int) -> int
    decreases p.pins@.len() - k,
{
    if k < 0 || k >= p.pins@.len() || points_badly(p, f, k, rot, m) {
        k
    } else {
        first_bad(p, f, rot, m, k + 1)
    }
}

pub open spec fn flip_note(pid: Seq<char>, net: Seq<char>) -> Seq<char> {
    "note: "@ + pid + " was flipped so its "@ + net + " pin points "@ + (if geo::gnd_spec(net) {
        "down"@
    } else {
        "up"@
    })
}

pub open spec fn shunt_note(pid: Seq<char>) -> Seq<char> {
    "note: "@ + pid + " is a shunt to ground; its explicit rot was ignored (shunts stand vertical)"@
}

/// Whether some pin is on a ground.
pub open spec fn grounded(p: PartInst) -> bool {
    exists|k: int|
        0 <= k < p.pins@.len() && match #[trigger] pin_net(p, k) {
            Some(net) => net.len() > 0 && geo::gnd_spec(net),
            None => false,
        }
}

pub open spec fn mirror_or(m: Option<Seq<char>>) -> Seq<char> {
    match m {
        Some(t) => t,
        None => ""@,
    }
}

/// The orientation of a leaf. One that lists a rotation keeps it, but a ground pin never points up
/// nor a supply pin down, and a shunt to ground never lies flat.
pub open spec fn leaf_pose(p: PartInst, f: Frame, s: StyleV, pid: Seq<char>, in_row: bool) -> LeafV {
    let free = default_pose(p, f, in_row);
    match s.rot {
        None => LeafV {
            rot: free.rot,
            mirror: match s.mirror {
                Some(t) => t,
                None => free.mirror,
            },
            notes: Seq::empty(),
            drop_rot: false,
        },
        Some(r) => {
            let mirror = mirror_or(s.mirror);
            let m = symlib::mirror_spec(mirror);
            if p.two_pin && !p.is_connector {
                let r1 = meant_rot(p, r);
                let k = first_bad(p, f, r1, m, 0);
                let (r2, notes) = if k < p.pins@.len() {
                    (half_turn(r1), seq![flip_note(pid, pin_net(p, k)->0)])
                } else {
                    (r1, Seq::empty())
                };
                if p.pins@.len() >= 2 && grounded(p) && lies_flat(p, r2, m) {
                    LeafV {
                        rot: free.rot,
                        mirror: free.mirror,
                        notes: notes.push(shunt_note(pid)),
                        drop_rot: true,
                    }
                } else {
                    LeafV { rot: r2 as i32, mirror, notes, drop_rot: false }
                }
            } else {
                LeafV { rot: r as i32, mirror, notes: Seq::empty(), drop_rot: false }
            }
        },
    }
}

/// What becomes of a leaf.
pub struct Leaf {
    pub rot: i32,
    pub mirror: String,
    pub notes: Vec<String>,
    pub drop_rot: bool,
}

impl Leaf {
    pub open spec fn view(&self) -> LeafV {
        LeafV {
            rot: self.rot,
            mirror: self.mirror@,
            notes: text::views(self.notes@),
            drop_rot: self.drop_rot,
        }
    }
}

fn find_bad(p: &PartInst, f: &Frame, rot: i32, mirror: &str) -> (k: usize)
    requires
        p.wf(),
        f.wf(),
    ensures
        k <= p.pins@.len(),
        k == first_bad(*p, *f, rot as int, symlib::mirror_spec(mirror@), 0),
        k < p.pins@.len() ==> pin_net(*p, k as int) is Some,
{
    let ghost m = symlib::mirror_spec(mirror@);
    let mut k: usize = 0;
    while k < p.pins.len()
        invariant
            k <= p.pins@.len(),
            p.wf(),
            f.wf(),
            m == symlib::mirror_spec(mirror@),
            first_bad(*p, *f, rot as int, m, 0) == first_bad(*p, *f, rot as int, m, k as int),
        decreases p.pins@.len() - k,
    {
        match net_at(p, k) {
            Some(net) => {
                let d = p.pin_dir_at(&p.pins[k], rot, mirror);
                let up: i32 = if is_gnd(net.as_str()) { -1 } else { 1 };
                if is_rail(f, net.as_str()) && d.0 == 0 && d.1 == up {
                    return k;
                }
            },
            None => {},
        }
        k += 1;
    }
    k
}

fn is_grounded(p: &PartInst) -> (r: bool)
    requires
        p.wf(),
    ensures
        r == grounded(*p),
{
    let mut k: usize = 0;
    while k < p.pins.len()
        invariant
            k <= p.pins@.len(),
            p.wf(),
            forall|j: int|
                0 <= j < k ==> !(match #[trigger] pin_net(*p, j) {
                    Some(net) => net.len() > 0 && geo::gnd_spec(net),
                    None => false,
                }),
        decreases p.pins@.len() - k,
    {
        match net_at(p, k) {
            Some(net) => {
                if !net.as_str().is_empty() && is_gnd(net.as_str()) {
                    assert(pin_net(*p, k as int) == Some(net@));
                    return true;
                }
            },
            None => {},
        }
        k += 1;
    }
    false
}

/// Orients a leaf.
pub fn orient_leaf(p: &PartInst, f: &Frame, s: &Style, pid: &str, in_row: bool) -> (r: Leaf)
    requires
        p.wf(),
        f.wf(),
    ensures
        r@ == leaf_pose(*p, *f, s@, pid@, in_row),
{
    let rot = match s.rot {
        None => {
            let (rot, mirror) = default_orient(p, f, in_row);
            let m = match &s.mirror {
                Some(t) => t.clone(),
                None => mirror,
            };
            let notes: Vec<String> = Vec::new();
            assert(text::views(notes@) =~= Seq::empty());
            return Leaf { rot, mirror: m, notes, drop_rot: false };
        },
        Some(r) => r,
    };
    let mirror = match &s.mirror {
        Some(t) => t.clone(),
        None => "".to_owned(),
    };
    let mut notes: Vec<String> = Vec::new();
    assert(text::views(notes@) =~= Seq::empty());
    if !(p.two_pin && !p.is_connector) {
        return Leaf { rot, mirror, notes, drop_rot: false };
    }
    let r1 = explicit_two_pin_rot(p, rot);
    let k = find_bad(p, f, r1, mirror.as_str());
    let mut r2 = r1;
    if k < p.pins.len() {
        r2 = turn_over(r1);
        match net_at(p, k) {
            Some(net) => {
                let way = if is_gnd(net.as_str()) { "down" } else { "up" };
                let n = Line::of("note: ").add(pid).add(" was flipped so its ").add(
                    net.as_str(),
                ).add(" pin points ").add(way).done();
                assert(n@ =~= flip_note(pid@, net@));
                notes.push(n);
                assert(text::views(notes@) =~= seq![flip_note(pid@, net@)]);
            },
            None => {},
        }
    }
    if p.pins.len() >= 2 && is_grounded(p) && is_flat(p, r2, mirror.as_str()) {
        let (rot, m) = default_orient(p, f, in_row);
        let ghost n0 = text::views(notes@);
        let n = Line::of("note: ").add(pid).add(
            " is a shunt to ground; its explicit rot was ignored (shunts stand vertical)",
        ).done();
        notes.push(n);
        assert(text::views(notes@) =~= n0.push(shunt_note(pid@)));
        Leaf { rot, mirror: m, notes, drop_rot: true }
    } else {
        Leaf { rot: r2, mirror, notes, drop_rot: false }
    }
}

} // verus!
