//! Nets: which pins are connected by wires, labels and power symbols.
use crate::compile;
use crate::compile::{on_segment, Key, PinRef};
use crate::geom::Pt;
use crate::model;
use crate::model::{Design, DesignV, LabelV, PowerV};
use crate::names;
use crate::names::sort_names;
use crate::text;
use crate::text::{join, quote_all, same, starts_with, Line};
use vstd::multiset::Multiset;
use vstd::prelude::*;

verus! {

/// What a net connects: points, pins of parts and names.
#[derive(Debug)]
pub enum Node {
    Pt(Key),
    Pin(String, String),
    Net(String),
}

#[verifier::ext_equal]
pub enum NodeV {
    Pt(Key),
    Pin(Seq<char>, Seq<char>),
    Net(Seq<char>),
}

impl View for Node {
    type V = NodeV;

    open spec fn view(&self) -> NodeV {
        match self {
            Node::Pt(k) => NodeV::Pt(*k),
            Node::Pin(r, n) => NodeV::Pin(r@, n@),
            Node::Net(s) => NodeV::Net(s@),
        }
    }
}

impl Node {
    fn is(&self, o: &Node) -> (r: bool)
        ensures
            r == (self@ == o@),
    {
        match (self, o) {
            (Node::Pt(a), Node::Pt(b)) => *a == *b,
            (Node::Pin(a, m), Node::Pin(b, n)) => {
                let x = same(a.as_str(), b.as_str());
                let y = same(m.as_str(), n.as_str());
                x && y
            },
            (Node::Net(a), Node::Net(b)) => same(a.as_str(), b.as_str()),
            _ => false,
        }
    }
}

/// Nodes in the order in which they came up, and the class of each.
#[verifier::ext_equal]
pub struct ClassesV {
    pub nodes: Seq<NodeV>,
    pub cls: Seq<int>,
}

/// The first position from `i` on of a node.
pub open spec fn node_at(v: Seq<NodeV>, x: NodeV, i: int) -> int
    decreases v.len() - i,
{
    if i < 0 || i >= v.len() {
        v.len() as int
    } else if v[i] == x {
        i
    } else {
        node_at(v, x, i + 1)
    }
}

impl ClassesV {
    pub open spec fn empty() -> ClassesV {
        ClassesV { nodes: Seq::empty(), cls: Seq::empty() }
    }

    pub open spec fn wf(self) -> bool {
        &&& self.nodes.len() == self.cls.len()
        &&& self.nodes.no_duplicates()
        &&& forall|i: int| 0 <= i < self.cls.len() ==> 0 <= #[trigger] self.cls[i] < self.cls.len()
    }

    /// The class of a node that has come up.
    pub open spec fn class(self, x: NodeV) -> int {
        self.cls[node_at(self.nodes, x, 0)]
    }

    /// A node comes up; a new one is a class of its own.
    pub open spec fn touch(self, x: NodeV) -> ClassesV {
        if node_at(self.nodes, x, 0) < self.nodes.len() {
            self
        } else {
            ClassesV {
                nodes: self.nodes.push(x),
                cls: self.cls.push(self.nodes.len() as int),
            }
        }
    }

    /// The classes of two nodes become one.
    pub open spec fn connect(self, a: NodeV, b: NodeV) -> ClassesV {
        let u = self.touch(a).touch(b);
        let ra = u.class(a);
        let rb = u.class(b);
        ClassesV {
            nodes: u.nodes,
            cls: Seq::new(
                u.cls.len(),
                |i: int|
                    if u.cls[i] == ra {
                        rb
                    } else {
                        u.cls[i]
                    },
            ),
        }
    }

    pub open spec fn has(self, x: NodeV) -> bool {
        node_at(self.nodes, x, 0) < self.nodes.len()
    }
}

pub proof fn lemma_node_at(v: Seq<NodeV>, x: NodeV, i: int)
    requires
        0 <= i <= v.len(),
    ensures
        i <= node_at(v, x, i) <= v.len(),
        node_at(v, x, i) < v.len() ==> v[node_at(v, x, i)] == x,
        forall|j: int| i <= j < node_at(v, x, i) ==> #[trigger] v[j] != x,
    decreases v.len() - i,
{
    if i < v.len() && v[i] != x {
        lemma_node_at(v, x, i + 1);
    }
}

/// A node that comes up keeps the classes of the others.
pub proof fn touch_keeps(u: ClassesV, x: NodeV, y: NodeV)
    requires
        u.wf(),
    ensures
        u.touch(x).wf(),
        u.touch(x).has(x),
        u.has(y) ==> u.touch(x).has(y) && u.touch(x).class(y) == u.class(y),
{
    lemma_node_at(u.nodes, x, 0);
    lemma_node_at(u.nodes, y, 0);
    let t = u.touch(x);
    lemma_node_at(t.nodes, x, 0);
    lemma_node_at(t.nodes, y, 0);
    if !u.has(x) {
        assert(t.nodes[u.nodes.len() as int] == x);
        assert(t.nodes.no_duplicates()) by {
            assert forall|i: int, j: int| 0 <= i < t.nodes.len() && 0 <= j < t.nodes.len() && i
                != j implies t.nodes[i] != t.nodes[j] by {
                if i < u.nodes.len() {
                    assert(u.nodes[i] != x);
                }
                if j < u.nodes.len() {
                    assert(u.nodes[j] != x);
                }
            }
        }
        if u.has(y) {
            let k = node_at(u.nodes, y, 0);
            assert(t.nodes[k] == y);
            assert(node_at(t.nodes, y, 0) == k);
        }
    }
}

/// Connecting two nodes puts them into one class, keeps together what was together, and joins no
/// others than their two classes.
pub proof fn connecting_joins_two_classes(u: ClassesV, a: NodeV, b: NodeV, x: NodeV, y: NodeV)
    requires
        u.wf(),
        u.has(x),
        u.has(y),
    ensures
        u.connect(a, b).wf(),
        u.connect(a, b).class(a) == u.connect(a, b).class(b),
        u.class(x) == u.class(y) ==> u.connect(a, b).class(x) == u.connect(a, b).class(y),
        u.has(a) && u.has(b) && u.connect(a, b).class(x) == u.connect(a, b).class(y) ==> u.class(x)
            == u.class(y) || (u.class(x) == u.class(a) && u.class(y) == u.class(b)) || (u.class(x)
            == u.class(b) && u.class(y) == u.class(a)),
{
    touch_keeps(u, a, x);
    touch_keeps(u, a, y);
    touch_keeps(u, a, a);
    touch_keeps(u, a, b);
    let t = u.touch(a);
    touch_keeps(t, b, x);
    touch_keeps(t, b, y);
    touch_keeps(t, b, a);
    touch_keeps(t, b, b);
    let w = t.touch(b);
    lemma_node_at(w.nodes, a, 0);
    lemma_node_at(w.nodes, b, 0);
    lemma_node_at(w.nodes, x, 0);
    lemma_node_at(w.nodes, y, 0);
}

/// Classes under construction.
pub struct Classes {
    pub nodes: Vec<Node>,
    pub cls: Vec<usize>,
}

pub open spec fn nodes_v(v: Seq<Node>) -> Seq<NodeV> {
    Seq::new(v.len(), |i: int| v[i]@)
}

impl Classes {
    pub open spec fn view(&self) -> ClassesV {
        ClassesV {
            nodes: nodes_v(self.nodes@),
            cls: Seq::new(self.cls@.len(), |i: int| self.cls@[i] as int),
        }
    }

    pub fn new() -> (r: Classes)
        ensures
            r@ == ClassesV::empty(),
            r@.wf(),
    {
        let r = Classes { nodes: Vec::new(), cls: Vec::new() };
        assert(r@ =~= ClassesV::empty());
        r
    }

    fn place(&self, x: &Node) -> (r: usize)
        ensures
            r == node_at(self@.nodes, x@, 0),
            r <= self.nodes@.len(),
    {
        let ghost v = self@.nodes;
        let mut i: usize = 0;
        while i < self.nodes.len()
            invariant
                i <= self.nodes@.len(),
                v == self@.nodes,
                node_at(v, x@, 0) == node_at(v, x@, i as int),
            decreases self.nodes@.len() - i,
        {
            assert(v[i as int] == self.nodes@[i as int]@);
            if self.nodes[i].is(x) {
                return i;
            }
            i += 1;
        }
        i
    }

    fn add(&mut self, x: Node) -> (r: usize)
        requires
            old(self)@.wf(),
        ensures
            final(self)@ == old(self)@.touch(x@),
            final(self)@.wf(),
            r == node_at(final(self)@.nodes, x@, 0),
            r < final(self)@.nodes.len(),
    {
        let ghost u = self@;
        let ghost xv = x@;
        proof {
            touch_keeps(u, xv, xv);
            lemma_node_at(u.nodes, xv, 0);
            lemma_node_at(u.touch(xv).nodes, xv, 0);
        }
        let i: usize = self.place(&x);
        if i >= self.nodes.len() {
            let c: usize = self.nodes.len();
            self.nodes.push(x);
            self.cls.push(c);
            assert(self@ =~= u.touch(xv));
            c
        } else {
            i
        }
    }

    /// Puts two nodes into one class.
    pub fn connect(&mut self, a: Node, b: Node)
        requires
            old(self)@.wf(),
        ensures
            final(self)@ == old(self)@.connect(a@, b@),
            final(self)@.wf(),
    {
        let ghost u0 = self@;
        let ghost av = a@;
        let ghost bv = b@;
        let ia: usize = self.add(a);
        let ghost u1 = self@;
        let ib: usize = self.add(b);
        let ghost u = self@;
        proof {
            touch_keeps(u1, bv, av);
            lemma_node_at(u1.nodes, av, 0);
            lemma_node_at(u.nodes, av, 0);
            assert(u.nodes[ia as int] == av) by {
                assert(u1.nodes[ia as int] == av);
            }
            assert(node_at(u.nodes, av, 0) == ia);
        }
        assert(u.cls[ia as int] == self.cls@[ia as int]);
        assert(u.cls[ib as int] == self.cls@[ib as int]);
        let ra: usize = self.cls[ia];
        let rb: usize = self.cls[ib];
        let ghost c0 = self.cls@;
        let ghost n0 = self.nodes@;
        let mut i: usize = 0;
        while i < self.cls.len()
            invariant
                i <= self.cls@.len(),
                self.nodes@ == n0,
                self.cls@.len() == c0.len(),
                forall|k: int|
                    0 <= k < i ==> #[trigger] self.cls@[k] == (if c0[k] == ra {
                        rb
                    } else {
                        c0[k]
                    }),
                forall|k: int| i <= k < c0.len() ==> #[trigger] self.cls@[k] == c0[k],
            decreases self.cls@.len() - i,
        {
            if self.cls[i] == ra {
                self.cls.set(i, rb);
            }
            i += 1;
        }
        assert(self@ =~= u0.connect(av, bv));
        assert(self@.wf()) by {
            assert forall|k: int| 0 <= k < self@.cls.len() implies 0 <= #[trigger] self@.cls[k]
                < self@.cls.len() by {
                assert(0 <= u.cls[k] < u.cls.len());
                assert(0 <= u.cls[ib as int] < u.cls.len());
            }
        }
    }
}

// ---------------------------------------------------------------- the classes of a sheet
pub open spec fn wire_classes(u: ClassesV, segs: Seq<(Key, Key)>, n: int) -> ClassesV
    decreases n,
{
    if n <= 0 {
        u
    } else {
        wire_classes(u, segs, n - 1).connect(
            NodeV::Pt(segs[n - 1].0),
            NodeV::Pt(segs[n - 1].1),
        )
    }
}

/// The first `n` points, each once.
pub open spec fn points_once(v: Seq<Key>, n: int) -> Seq<Key>
    decreases n,
{
    if n <= 0 {
        Seq::empty()
    } else {
        let s = points_once(v, n - 1);
        if s.contains(v[n - 1]) {
            s
        } else {
            s.push(v[n - 1])
        }
    }
}

pub open spec fn seg_ends(segs: Seq<(Key, Key)>, n: int) -> Seq<Key>
    decreases n,
{
    if n <= 0 {
        Seq::empty()
    } else {
        seg_ends(segs, n - 1).push(segs[n - 1].0).push(segs[n - 1].1)
    }
}

/// A point lies on the first `n` wires or not.
pub open spec fn met_classes(u: ClassesV, p: Key, segs: Seq<(Key, Key)>, n: int) -> ClassesV
    decreases n,
{
    if n <= 0 {
        u
    } else {
        let w = met_classes(u, p, segs, n - 1);
        if compile::inside_seg(p, segs[n - 1].0, segs[n - 1].1) {
            w.connect(NodeV::Pt(p), NodeV::Pt(segs[n - 1].0))
        } else {
            w
        }
    }
}

pub open spec fn tee_classes(u: ClassesV, pts: Seq<Key>, segs: Seq<(Key, Key)>, n: int) -> ClassesV
    decreases n,
{
    if n <= 0 {
        u
    } else {
        met_classes(tee_classes(u, pts, segs, n - 1), pts[n - 1], segs, segs.len() as int)
    }
}

pub open spec fn ref_classes(
    u: ClassesV,
    p: Key,
    refs: Seq<compile::PinRefV>,
    n: int,
) -> ClassesV
    decreases n,
{
    if n <= 0 {
        u
    } else {
        ref_classes(u, p, refs, n - 1).connect(
            NodeV::Pt(p),
            NodeV::Pin(refs[n - 1].owner, refs[n - 1].number),
        )
    }
}

pub open spec fn pin_classes(
    u: ClassesV,
    pins: compile::PinsAtV,
    nc: Seq<Key>,
    n: int,
) -> ClassesV
    decreases n,
{
    if n <= 0 {
        u
    } else {
        let w = pin_classes(u, pins, nc, n - 1);
        let e = pins[n - 1];
        if nc.contains(e.0) {
            w
        } else {
            ref_classes(w, e.0, e.1, e.1.len() as int)
        }
    }
}

/// Labels by point: the last label at a point counts.
pub open spec fn label_classes(
    u: ClassesV,
    at: Seq<(Key, int)>,
    labels: Seq<LabelV>,
    n: int,
) -> ClassesV
    decreases n,
{
    if n <= 0 {
        u
    } else {
        label_classes(u, at, labels, n - 1).connect(
            NodeV::Pt(at[n - 1].0),
            NodeV::Net(labels[at[n - 1].1].text),
        )
    }
}

pub open spec fn power_classes(u: ClassesV, power: Seq<PowerV>, n: int) -> ClassesV
    decreases n,
{
    if n <= 0 {
        u
    } else {
        let w = power_classes(u, power, n - 1);
        if power[n - 1].net == "PWR_FLAG"@ {
            w
        } else {
            w.connect(
                NodeV::Pt(compile::key_spec(power[n - 1].at)),
                NodeV::Net(power[n - 1].net),
            )
        }
    }
}

pub open spec fn pin_keys(pins: compile::PinsAtV) -> Seq<Key> {
    Seq::new(pins.len(), |i: int| pins[i].0)
}

pub open spec fn label_keys(at: Seq<(Key, int)>) -> Seq<Key> {
    Seq::new(at.len(), |i: int| at[i].0)
}

pub open spec fn marks(nc: Seq<Pt>) -> Seq<Key> {
    Seq::new(nc.len(), |i: int| compile::key_spec(nc[i]))
}

/// Everything on a sheet, by what is connected.
pub open spec fn sheet_classes(
    des: DesignV,
    pins: compile::PinsAtV,
    segs: Seq<(Key, Key)>,
    at: Seq<(Key, int)>,
) -> ClassesV {
    let all = pin_keys(pins) + label_keys(at) + seg_ends(segs, segs.len() as int);
    let pts = points_once(all, all.len() as int);
    let u1 = wire_classes(ClassesV::empty(), segs, segs.len() as int);
    let u2 = tee_classes(u1, pts, segs, pts.len() as int);
    let u3 = pin_classes(u2, pins, marks(des.nc), pins.len() as int);
    let u4 = label_classes(u3, at, des.labels, at.len() as int);
    power_classes(u4, des.power, des.power.len() as int)
}

// ---------------------------------------------------------------- nets
/// Classes in the order in which their first nodes came up.
pub open spec fn class_order(u: ClassesV, n: int) -> Seq<int>
    decreases n,
{
    if n <= 0 {
        Seq::empty()
    } else {
        let s = class_order(u, n - 1);
        if s.contains(u.cls[n - 1]) {
            s
        } else {
            s.push(u.cls[n - 1])
        }
    }
}

pub open spec fn class_names(u: ClassesV, c: int, n: int) -> Seq<Seq<char>>
    decreases n,
{
    if n <= 0 {
        Seq::empty()
    } else {
        let s = class_names(u, c, n - 1);
        match u.nodes[n - 1] {
            NodeV::Net(t) => if u.cls[n - 1] == c {
                s.push(t)
            } else {
                s
            },
            _ => s,
        }
    }
}

/// Pins of real parts in a class, as `U1.12`.
pub open spec fn class_members(u: ClassesV, c: int, n: int) -> Seq<Seq<char>>
    decreases n,
{
    if n <= 0 {
        Seq::empty()
    } else {
        let s = class_members(u, c, n - 1);
        match u.nodes[n - 1] {
            NodeV::Pin(r, k) => if u.cls[n - 1] == c && !text::starts(r, "#"@) {
                s.push(r + "."@ + k)
            } else {
                s
            },
            _ => s,
        }
    }
}

pub struct NetsV {
    pub nets: Seq<(Seq<char>, Seq<Seq<char>>)>,
    pub warnings: Seq<Seq<char>>,
    /// How many nets without a name there are.
    pub unnamed: nat,
}

pub open spec fn shorted(names: Seq<Seq<char>>) -> Seq<char> {
    "nets ["@ + text::joined(text::quoted(names, "'"@, "'"@), ", "@) + "] are shorted together"@
}

/// The nets of the first `n` classes: those with pins. A net is called by the first of its names in
/// order, or numbered where it has none.
pub open spec fn nets_of(u: ClassesV, order: Seq<int>, n: int) -> NetsV
    decreases n,
{
    if n <= 0 {
        NetsV { nets: Seq::empty(), warnings: Seq::empty(), unnamed: 0 }
    } else {
        let s = nets_of(u, order, n - 1);
        let c = order[n - 1];
        let m = u.nodes.len() as int;
        let raw = class_names(u, c, m);
        let called = names::sorted(raw, raw.len() as int);
        let pins = class_members(u, c, m);
        let members = names::sorted(pins, pins.len() as int);
        if members.len() == 0 {
            s
        } else if called.len() > 0 {
            NetsV {
                nets: s.nets.push((called[0], members)),
                warnings: if called.len() > 1 {
                    s.warnings.push(shorted(called))
                } else {
                    s.warnings
                },
                unnamed: s.unnamed,
            }
        } else {
            NetsV {
                nets: s.nets.push(("N$"@ + text::digits(s.unnamed + 1), members)),
                warnings: s.warnings,
                unnamed: s.unnamed + 1,
            }
        }
    }
}

pub open spec fn sheet_nets(
    des: DesignV,
    pins: compile::PinsAtV,
    segs: Seq<(Key, Key)>,
    at: Seq<(Key, int)>,
) -> NetsV {
    let u = sheet_classes(des, pins, segs, at);
    let order = class_order(u, u.nodes.len() as int);
    nets_of(u, order, order.len() as int)
}

pub open spec fn nets_v(v: Seq<(String, Vec<String>)>) -> Seq<(Seq<char>, Seq<Seq<char>>)> {
    Seq::new(v.len(), |i: int| (v[i].0@, text::views(v[i].1@)))
}

pub(crate) fn has_key(v: &Vec<Key>, k: Key) -> (r: bool)
    ensures
        r == v@.contains(k),
{
    let mut i: usize = 0;
    while i < v.len()
        invariant
            i <= v@.len(),
            forall|j: int| 0 <= j < i ==> #[trigger] v@[j] != k,
        decreases v@.len() - i,
    {
        if v[i] == k {
            return true;
        }
        i += 1;
    }
    false
}

pub open spec fn keys_fit(v: Seq<Key>) -> bool {
    forall|i: int| 0 <= i < v.len() ==> compile::key_ok(#[trigger] v[i])
}

fn key_once(v: &mut Vec<Key>, k: Key, Ghost(all): Ghost<Seq<Key>>, Ghost(n): Ghost<int>)
    requires
        0 <= n < all.len(),
        all[n] == k,
        old(v)@ == points_once(all, n),
        keys_fit(old(v)@),
        compile::key_ok(k),
    ensures
        final(v)@ == points_once(all, n + 1),
        keys_fit(final(v)@),
{
    if !has_key(v, k) {
        v.push(k);
    }
}

/// The points of pins, labels and wire ends, each once.
fn all_points(pins: &Vec<(Key, Vec<PinRef>)>, at: &Vec<(Key, usize)>, segs: &Vec<(Key, Key)>) -> (r: Vec<
    Key,
>)
    requires
        compile::keys_ok(pins@),
        forall|i: int| 0 <= i < at@.len() ==> compile::key_ok((#[trigger] at@[i]).0),
        compile::seg_keys_ok(segs@),
    ensures
        ({
            let all = pin_keys(compile::pins_at_v(pins@)) + label_keys(at_v(at@)) + seg_ends(
                segs@,
                segs@.len() as int,
            );
            r@ == points_once(all, all.len() as int)
        }),
        keys_fit(r@),
{
    let ghost a = pin_keys(compile::pins_at_v(pins@));
    let ghost b = label_keys(at_v(at@));
    let ghost c = seg_ends(segs@, segs@.len() as int);
    let ghost all = a + b + c;
    proof {
        lemma_seg_ends(segs@, segs@.len() as int);
    }
    let mut r: Vec<Key> = Vec::new();
    let mut i: usize = 0;
    assert(r@ =~= points_once(all, 0));
    while i < pins.len()
        invariant
            i <= pins@.len(),
            a == pin_keys(compile::pins_at_v(pins@)),
            all == a + b + c,
            compile::keys_ok(pins@),
            r@ == points_once(all, i as int),
            keys_fit(r@),
        decreases pins@.len() - i,
    {
        assert(compile::key_ok(pins@[i as int].0));
        assert(all[i as int] == a[i as int]);
        key_once(&mut r, pins[i].0, Ghost(all), Ghost(i as int));
        i += 1;
    }
    i = 0;
    while i < at.len()
        invariant
            i <= at@.len(),
            a.len() == pins@.len(),
            b == label_keys(at_v(at@)),
            all == a + b + c,
            forall|i: int| 0 <= i < at@.len() ==> compile::key_ok((#[trigger] at@[i]).0),
            r@ == points_once(all, a.len() + i),
            keys_fit(r@),
        decreases at@.len() - i,
    {
        assert(compile::key_ok(at@[i as int].0));
        assert(all[a.len() + i] == b[i as int]);
        key_once(&mut r, at[i].0, Ghost(all), Ghost(a.len() + i));
        i += 1;
    }
    i = 0;
    while i < segs.len()
        invariant
            i <= segs@.len(),
            b.len() == at@.len(),
            c == seg_ends(segs@, segs@.len() as int),
            c.len() == 2 * segs@.len(),
            forall|j: int|
                0 <= j < segs@.len() ==> c[2 * j] == (#[trigger] segs@[j]).0 && c[2 * j + 1]
                    == segs@[j].1,
            all == a + b + c,
            compile::seg_keys_ok(segs@),
            r@ == points_once(all, a.len() + b.len() + 2 * i),
            keys_fit(r@),
        decreases segs@.len() - i,
    {
        let (p, q) = segs[i];
        assert(compile::key_ok(segs@[i as int].0) && compile::key_ok(segs@[i as int].1));
        let ghost n = a.len() + b.len() + 2 * i;
        assert(all[n] == c[2 * i as int]);
        assert(all[n + 1] == c[2 * i + 1]);
        key_once(&mut r, p, Ghost(all), Ghost(n));
        key_once(&mut r, q, Ghost(all), Ghost(n + 1));
        i += 1;
    }
    r
}

proof fn lemma_seg_ends(segs: Seq<(Key, Key)>, n: int)
    requires
        0 <= n <= segs.len(),
    ensures
        seg_ends(segs, n).len() == 2 * n,
        forall|j: int|
            0 <= j < n ==> seg_ends(segs, n)[2 * j] == (#[trigger] segs[j]).0 && seg_ends(segs, n)[2
                * j + 1] == segs[j].1,
    decreases n,
{
    if n > 0 {
        lemma_seg_ends(segs, n - 1);
    }
}

pub open spec fn at_v(v: Seq<(Key, usize)>) -> Seq<(Key, int)> {
    Seq::new(v.len(), |i: int| (v[i].0, v[i].1 as int))
}

impl Classes {
    fn add_wires(&mut self, segs: &Vec<(Key, Key)>)
        requires
            old(self)@.wf(),
        ensures
            final(self)@ == wire_classes(old(self)@, segs@, segs@.len() as int),
            final(self)@.wf(),
    {
        let ghost u0 = self@;
        let mut i: usize = 0;
        while i < segs.len()
            invariant
                i <= segs@.len(),
                self@.wf(),
                self@ == wire_classes(u0, segs@, i as int),
            decreases segs@.len() - i,
        {
            let (a, b) = segs[i];
            self.connect(Node::Pt(a), Node::Pt(b));
            i += 1;
        }
    }

    fn add_tees(&mut self, pts: &Vec<Key>, segs: &Vec<(Key, Key)>)
        requires
            old(self)@.wf(),
            keys_fit(pts@),
            compile::seg_keys_ok(segs@),
        ensures
            final(self)@ == tee_classes(old(self)@, pts@, segs@, pts@.len() as int),
            final(self)@.wf(),
    {
        let ghost u0 = self@;
        let mut i: usize = 0;
        while i < pts.len()
            invariant
                i <= pts@.len(),
                keys_fit(pts@),
                compile::seg_keys_ok(segs@),
                self@.wf(),
                self@ == tee_classes(u0, pts@, segs@, i as int),
            decreases pts@.len() - i,
        {
            let p = pts[i];
            assert(compile::key_ok(pts@[i as int]));
            let ghost u1 = self@;
            let mut j: usize = 0;
            while j < segs.len()
                invariant
                    j <= segs@.len(),
                    compile::key_ok(p),
                    compile::seg_keys_ok(segs@),
                    self@.wf(),
                    self@ == met_classes(u1, p, segs@, j as int),
                decreases segs@.len() - j,
            {
                let (a, b) = segs[j];
                assert(compile::key_ok(segs@[j as int].0) && compile::key_ok(segs@[j as int].1));
                if on_segment(p, a, b) {
                    self.connect(Node::Pt(p), Node::Pt(a));
                }
                j += 1;
            }
            i += 1;
        }
    }

    fn add_pins(&mut self, pins: &Vec<(Key, Vec<PinRef>)>, nc: &Vec<Key>)
        requires
            old(self)@.wf(),
        ensures
            final(self)@ == pin_classes(
                old(self)@,
                compile::pins_at_v(pins@),
                nc@,
                pins@.len() as int,
            ),
            final(self)@.wf(),
    {
        let ghost u0 = self@;
        let ghost pv = compile::pins_at_v(pins@);
        let mut i: usize = 0;
        while i < pins.len()
            invariant
                i <= pins@.len(),
                pv == compile::pins_at_v(pins@),
                self@.wf(),
                self@ == pin_classes(u0, pv, nc@, i as int),
            decreases pins@.len() - i,
        {
            let k = pins[i].0;
            let refs = &pins[i].1;
            assert(pv[i as int] == (k, compile::refs_v(refs@)));
            if !has_key(nc, k) {
                let ghost u1 = self@;
                let ghost rv = compile::refs_v(refs@);
                let mut j: usize = 0;
                while j < refs.len()
                    invariant
                        j <= refs@.len(),
                        rv == compile::refs_v(refs@),
                        self@.wf(),
                        self@ == ref_classes(u1, k, rv, j as int),
                    decreases refs@.len() - j,
                {
                    assert(rv[j as int] == refs@[j as int]@);
                    self.connect(
                        Node::Pt(k),
                        Node::Pin(refs[j].owner.clone(), refs[j].number.clone()),
                    );
                    j += 1;
                }
            }
            i += 1;
        }
    }

    fn add_labels(&mut self, at: &Vec<(Key, usize)>, des: &Design)
        requires
            old(self)@.wf(),
            forall|i: int| 0 <= i < at@.len() ==> (#[trigger] at@[i]).1 < des.labels@.len(),
        ensures
            final(self)@ == label_classes(old(self)@, at_v(at@), des@.labels, at@.len() as int),
            final(self)@.wf(),
    {
        let ghost u0 = self@;
        let ghost av = at_v(at@);
        let mut i: usize = 0;
        while i < at.len()
            invariant
                i <= at@.len(),
                av == at_v(at@),
                forall|i: int| 0 <= i < at@.len() ==> (#[trigger] at@[i]).1 < des.labels@.len(),
                self@.wf(),
                self@ == label_classes(u0, av, des@.labels, i as int),
            decreases at@.len() - i,
        {
            let (k, l) = at[i];
            assert(at@[i as int].1 < des.labels@.len());
            assert(des@.labels[l as int] == des.labels@[l as int]@);
            self.connect(Node::Pt(k), Node::Net(des.labels[l].text.clone()));
            i += 1;
        }
    }

    fn add_power(&mut self, des: &Design)
        requires
            old(self)@.wf(),
            des@.ok(),
        ensures
            final(self)@ == power_classes(old(self)@, des@.power, des@.power.len() as int),
            final(self)@.wf(),
    {
        let ghost u0 = self@;
        let mut i: usize = 0;
        while i < des.power.len()
            invariant
                i <= des.power@.len(),
                des@.ok(),
                self@.wf(),
                self@ == power_classes(u0, des@.power, i as int),
            decreases des.power@.len() - i,
        {
            assert(des@.power[i as int] == des.power@[i as int]@);
            assert(model::power_ok(des@.power[i as int]));
            if !same(des.power[i].net.as_str(), "PWR_FLAG") {
                self.connect(
                    Node::Pt(Key::of(des.power[i].at)),
                    Node::Net(des.power[i].net.clone()),
                );
            }
            i += 1;
        }
    }

    fn order(&self) -> (r: Vec<usize>)
        requires
            self@.wf(),
        ensures
            Seq::new(r@.len(), |i: int| r@[i] as int) == class_order(
                self@,
                self@.nodes.len() as int,
            ),
    {
        let ghost u = self@;
        let mut r: Vec<usize> = Vec::new();
        let mut i: usize = 0;
        assert(Seq::new(r@.len(), |i: int| r@[i] as int) =~= class_order(u, 0));
        while i < self.cls.len()
            invariant
                i <= self.cls@.len(),
                u == self@,
                Seq::new(r@.len(), |i: int| r@[i] as int) == class_order(u, i as int),
            decreases self.cls@.len() - i,
        {
            let c: usize = self.cls[i];
            assert(u.cls[i as int] == c);
            let ghost rv = Seq::new(r@.len(), |i: int| r@[i] as int);
            let mut known = false;
            let mut j: usize = 0;
            while j < r.len()
                invariant
                    j <= r@.len(),
                    rv == Seq::new(r@.len(), |i: int| r@[i] as int),
                    known == exists|k: int| 0 <= k < j && #[trigger] rv[k] == c,
                decreases r@.len() - j,
            {
                assert(rv[j as int] == r@[j as int]);
                if r[j] == c {
                    known = true;
                }
                j += 1;
            }
            assert(known == rv.contains(c as int));
            if !known {
                r.push(c);
                assert(Seq::new(r@.len(), |i: int| r@[i] as int) =~= rv.push(c as int));
            }
            i += 1;
        }
        r
    }

    fn names_of(&self, c: usize) -> (r: Vec<String>)
        requires
            self@.wf(),
        ensures
            text::views(r@) == class_names(self@, c as int, self@.nodes.len() as int),
    {
        let ghost u = self@;
        let mut r: Vec<String> = Vec::new();
        let mut i: usize = 0;
        assert(text::views(r@) =~= class_names(u, c as int, 0));
        while i < self.nodes.len()
            invariant
                i <= self.nodes@.len(),
                u == self@,
                u.wf(),
                text::views(r@) == class_names(u, c as int, i as int),
            decreases self.nodes@.len() - i,
        {
            assert(u.nodes[i as int] == self.nodes@[i as int]@);
            assert(u.cls[i as int] == self.cls@[i as int]);
            let ghost r0 = text::views(r@);
            match &self.nodes[i] {
                Node::Net(t) => {
                    if self.cls[i] == c {
                        r.push(t.clone());
                        assert(text::views(r@) =~= r0.push(t@));
                    }
                },
                _ => {},
            }
            i += 1;
        }
        r
    }

    fn members_of(&self, c: usize) -> (r: Vec<String>)
        requires
            self@.wf(),
        ensures
            text::views(r@) == class_members(self@, c as int, self@.nodes.len() as int),
    {
        let ghost u = self@;
        let mut r: Vec<String> = Vec::new();
        let mut i: usize = 0;
        assert(text::views(r@) =~= class_members(u, c as int, 0));
        while i < self.nodes.len()
            invariant
                i <= self.nodes@.len(),
                u == self@,
                u.wf(),
                text::views(r@) == class_members(u, c as int, i as int),
            decreases self.nodes@.len() - i,
        {
            assert(u.nodes[i as int] == self.nodes@[i as int]@);
            assert(u.cls[i as int] == self.cls@[i as int]);
            let ghost r0 = text::views(r@);
            match &self.nodes[i] {
                Node::Pin(o, k) => {
                    if self.cls[i] == c && !starts_with(o.as_str(), "#") {
                        let t = Line::of(o.as_str()).add(".").add(k.as_str()).done();
                        let ghost tv = t@;
                        r.push(t);
                        assert(text::views(r@) =~= r0.push(tv));
                    }
                },
                _ => {},
            }
            i += 1;
        }
        r
    }
}

/// The nets of a sheet, and warnings of names that are shorted together.
pub(crate) fn build_nets(
    des: &Design,
    pins: &Vec<(Key, Vec<PinRef>)>,
    segs: &Vec<(Key, Key)>,
    at: &Vec<(Key, usize)>,
    warnings: &mut Vec<String>,
) -> (r: Vec<(String, Vec<String>)>)
    requires
        des@.ok(),
        compile::keys_ok(pins@),
        compile::seg_keys_ok(segs@),
        forall|i: int|
            0 <= i < at@.len() ==> compile::key_ok((#[trigger] at@[i]).0) && at@[i].1
                < des.labels@.len(),
    ensures
        ({
            let n = sheet_nets(des@, compile::pins_at_v(pins@), segs@, at_v(at@));
            &&& nets_v(r@) == n.nets
            &&& text::views(final(warnings)@) == text::views(old(warnings)@) + n.warnings
        }),
{
    let pts = all_points(pins, at, segs);
    let mut nc: Vec<Key> = Vec::new();
    let mut i: usize = 0;
    while i < des.nc.len()
        invariant
            i <= des.nc@.len(),
            des@.ok(),
            nc@.len() == i,
            forall|k: int| 0 <= k < i ==> #[trigger] nc@[k] == compile::key_spec(des.nc@[k]),
        decreases des.nc@.len() - i,
    {
        assert(model::on_sheet(des@.nc[i as int]));
        nc.push(Key::of(des.nc[i]));
        i += 1;
    }
    assert(nc@ =~= marks(des@.nc));
    let mut u = Classes::new();
    u.add_wires(segs);
    u.add_tees(&pts, segs);
    u.add_pins(pins, &nc);
    u.add_labels(at, des);
    u.add_power(des);
    let ghost uv = u@;
    assert(uv == sheet_classes(des@, compile::pins_at_v(pins@), segs@, at_v(at@)));
    let order = u.order();
    let ghost ov = class_order(uv, uv.nodes.len() as int);
    assert(ov.len() == order@.len());
    let ghost w0 = text::views(warnings@);
    let mut r: Vec<(String, Vec<String>)> = Vec::new();
    let mut unnamed: u128 = 0;
    i = 0;
    assert(nets_v(r@) =~= nets_of(uv, ov, 0).nets);
    assert(w0 =~= w0 + nets_of(uv, ov, 0).warnings);
    while i < order.len()
        invariant
            i <= order@.len(),
            u@ == uv,
            uv.wf(),
            ov == Seq::new(order@.len(), |i: int| order@[i] as int),
            nets_v(r@) == nets_of(uv, ov, i as int).nets,
            text::views(warnings@) == w0 + nets_of(uv, ov, i as int).warnings,
            unnamed == nets_of(uv, ov, i as int).unnamed,
            unnamed <= i,
        decreases order@.len() - i,
    {
        assert(ov[i as int] == order@[i as int]);
        let c: usize = order[i];
        let called = sort_names(&u.names_of(c));
        let members = sort_names(&u.members_of(c));
        let ghost r0 = nets_v(r@);
        let ghost w1 = text::views(warnings@);
        let ghost cv = text::views(called@);
        let ghost mv = text::views(members@);
        assert(cv.len() == called@.len());
        assert(mv.len() == members@.len());
        let ghost next = nets_of(uv, ov, i + 1);
        if members.len() > 0 {
            if called.len() > 0 {
                if called.len() > 1 {
                    let list = join(&quote_all(&called, "'", "'"), ", ");
                    let t = Line::of("nets [").add(list.as_str()).add(
                        "] are shorted together",
                    ).done();
                    warnings.push(t);
                    assert(text::views(warnings@) =~= w1.push(shorted(cv)));
                }
                assert(cv[0] == called@[0]@);
                r.push((called[0].clone(), members));
                assert(nets_v(r@) =~= r0.push((cv[0], mv)));
            } else {
                unnamed = unnamed + 1;
                let t = Line::of("N$").count(unnamed).done();
                let ghost tv = t@;
                r.push((t, members));
                assert(nets_v(r@) =~= r0.push((tv, mv)));
            }
        }
        assert(nets_v(r@) =~= next.nets);
        assert(text::views(warnings@) =~= w0 + next.warnings);
        i += 1;
    }
    r
}

// ---------------------------------------------------------------- a partition of the pins
/// The text of a pin of a real part, as `U1.12`.
pub open spec fn pin_text(x: NodeV) -> Option<Seq<char>> {
    match x {
        NodeV::Pin(r, k) => if text::starts(r, "#"@) {
            None
        } else {
            Some(r + "."@ + k)
        },
        _ => None,
    }
}

/// The pins of real parts among the first `n` nodes.
pub open spec fn pin_texts(v: Seq<NodeV>, n: int) -> Seq<Seq<char>>
    decreases n,
{
    if n <= 0 {
        Seq::empty()
    } else {
        match pin_text(v[n - 1]) {
            Some(t) => pin_texts(v, n - 1).push(t),
            None => pin_texts(v, n - 1),
        }
    }
}

/// The pins of the first `n` nets, all together.
pub open spec fn all_members(nets: Seq<(Seq<char>, Seq<Seq<char>>)>, n: int) -> Multiset<Seq<char>>
    decreases n,
{
    if n <= 0 {
        Multiset::empty()
    } else {
        all_members(nets, n - 1).add(nets[n - 1].1.to_multiset())
    }
}

/// The pins of the first `n` classes of a list, all together.
spec fn class_pins(u: ClassesV, order: Seq<int>, n: int, m: int) -> Multiset<Seq<char>>
    decreases n,
{
    if n <= 0 {
        Multiset::empty()
    } else {
        class_pins(u, order, n - 1, m).add(class_members(u, order[n - 1], m).to_multiset())
    }
}

proof fn lemma_class_pins(u: ClassesV, order: Seq<int>, n: int, m: int)
    requires
        0 <= n <= order.len(),
        order.no_duplicates(),
        m > 0,
    ensures
        pin_text(u.nodes[m - 1]) is Some && order.take(n).contains(u.cls[m - 1]) ==> class_pins(
            u,
            order,
            n,
            m,
        ) == class_pins(u, order, n, m - 1).insert(pin_text(u.nodes[m - 1])->0),
        !(pin_text(u.nodes[m - 1]) is Some && order.take(n).contains(u.cls[m - 1])) ==> class_pins(
            u,
            order,
            n,
            m,
        ) == class_pins(u, order, n, m - 1),
    decreases n,
{
    broadcast use vstd::seq_lib::group_to_multiset_ensures;

    if n > 0 {
        lemma_class_pins(u, order, n - 1, m);
        let c = order[n - 1];
        let x = u.cls[m - 1];
        assert(order.take(n) =~= order.take(n - 1).push(c));
        if order.take(n).contains(x) {
            let i = choose|i: int| 0 <= i < n && #[trigger] order.take(n)[i] == x;
            assert(order[i] == x);
            if i < n - 1 {
                assert(order.take(n - 1)[i] == x);
                assert(c != x);
            } else {
                if order.take(n - 1).contains(x) {
                    let j = choose|j: int| 0 <= j < n - 1 && #[trigger] order.take(n - 1)[j] == x;
                    assert(order[j] == order[n - 1]);
                }
            }
        } else {
            assert(order.take(n)[n - 1] == c);
            if order.take(n - 1).contains(x) {
                let j = choose|j: int| 0 <= j < n - 1 && #[trigger] order.take(n - 1)[j] == x;
                assert(order.take(n)[j] == x);
            }
        }
        let a = class_pins(u, order, n - 1, m - 1);
        let b = class_members(u, c, m - 1);
        if pin_text(u.nodes[m - 1]) is Some {
            let t = pin_text(u.nodes[m - 1])->0;
            assert(a.insert(t).add(b.to_multiset()) =~= a.add(b.to_multiset()).insert(t));
            assert(a.add(b.to_multiset().insert(t)) =~= a.add(b.to_multiset()).insert(t));
            assert(b.push(t).to_multiset() =~= b.to_multiset().insert(t));
        }
    }
}

pub proof fn lemma_order(u: ClassesV, n: int)
    requires
        0 <= n <= u.cls.len(),
    ensures
        class_order(u, n).no_duplicates(),
        forall|i: int| 0 <= i < n ==> class_order(u, n).contains(#[trigger] u.cls[i]),
    decreases n,
{
    if n > 0 {
        lemma_order(u, n - 1);
        let s = class_order(u, n - 1);
        let r = class_order(u, n);
        assert forall|i: int| 0 <= i < n implies r.contains(#[trigger] u.cls[i]) by {
            if i < n - 1 {
                assert(s.contains(u.cls[i]));
                let j = choose|j: int| 0 <= j < s.len() && s[j] == u.cls[i];
                assert(r[j] == u.cls[i]);
            } else if !s.contains(u.cls[i]) {
                assert(r[s.len() as int] == u.cls[i]);
            }
        }
    }
}

proof fn lemma_all_classes(u: ClassesV, order: Seq<int>, m: int)
    requires
        0 <= m <= u.nodes.len(),
        order.no_duplicates(),
        forall|i: int| 0 <= i < u.nodes.len() ==> order.contains(#[trigger] u.cls[i]),
    ensures
        class_pins(u, order, order.len() as int, m) == pin_texts(u.nodes, m).to_multiset(),
    decreases m,
{
    broadcast use vstd::seq_lib::group_to_multiset_ensures;

    if m > 0 {
        lemma_all_classes(u, order, m - 1);
        lemma_class_pins(u, order, order.len() as int, m);
        assert(order.take(order.len() as int) =~= order);
        assert(order.contains(u.cls[m - 1]));
        if pin_text(u.nodes[m - 1]) is Some {
            let t = pin_text(u.nodes[m - 1])->0;
            let p = pin_texts(u.nodes, m - 1);
            assert(p.push(t).to_multiset() =~= p.to_multiset().insert(t));
        }
    } else {
        lemma_no_pins(u, order, order.len() as int);
        assert(pin_texts(u.nodes, 0).to_multiset() =~= Multiset::empty());
    }
}

proof fn lemma_no_pins(u: ClassesV, order: Seq<int>, n: int)
    ensures
        class_pins(u, order, n, 0) == Multiset::<Seq<char>>::empty(),
    decreases n,
{
    broadcast use vstd::seq_lib::group_to_multiset_ensures;

    if n > 0 {
        lemma_no_pins(u, order, n - 1);
        assert(class_members(u, order[n - 1], 0).to_multiset() =~= Multiset::empty());
    }
}

proof fn lemma_nets_pins(u: ClassesV, order: Seq<int>, n: int)
    requires
        0 <= n <= order.len(),
    ensures
        all_members(nets_of(u, order, n).nets, nets_of(u, order, n).nets.len() as int)
            == class_pins(u, order, n, u.nodes.len() as int),
    decreases n,
{
    broadcast use vstd::seq_lib::group_to_multiset_ensures;

    if n > 0 {
        lemma_nets_pins(u, order, n - 1);
        let m = u.nodes.len() as int;
        let s = nets_of(u, order, n - 1).nets;
        let r = nets_of(u, order, n).nets;
        let pins = class_members(u, order[n - 1], m);
        names::sorted_is_in_order(pins, pins.len() as int);
        assert(pins.take(pins.len() as int) =~= pins);
        let members = names::sorted(pins, pins.len() as int);
        assert(members.to_multiset() == pins.to_multiset());
        if members.len() == 0 {
            assert(members.to_multiset().len() == 0);
            assert(pins.len() == 0);
            assert(class_pins(u, order, n - 1, m).add(pins.to_multiset()) =~= class_pins(
                u,
                order,
                n - 1,
                m,
            ));
        } else {
            assert(r.len() == s.len() + 1);
            lemma_members_prefix(s, r, s.len() as int);
        }
    }
}

proof fn lemma_members_prefix(
    a: Seq<(Seq<char>, Seq<Seq<char>>)>,
    b: Seq<(Seq<char>, Seq<Seq<char>>)>,
    n: int,
)
    requires
        0 <= n <= a.len() <= b.len(),
        forall|i: int| 0 <= i < a.len() ==> #[trigger] a[i] == b[i],
    ensures
        all_members(a, n) == all_members(b, n),
    decreases n,
{
    if n > 0 {
        lemma_members_prefix(a, b, n - 1);
    }
}

/// Connecting two nodes brings up these two and no others.
pub proof fn lemma_connect(u: ClassesV, a: NodeV, b: NodeV)
    requires
        u.wf(),
    ensures
        u.connect(a, b).wf(),
        forall|x: NodeV| #[trigger]
            u.connect(a, b).nodes.contains(x) <==> u.nodes.contains(x) || x == a || x == b,
{
    touch_keeps(u, a, a);
    let t = u.touch(a);
    touch_keeps(t, b, a);
    touch_keeps(t, b, b);
    let w = t.touch(b);
    lemma_node_at(w.nodes, a, 0);
    lemma_node_at(w.nodes, b, 0);
    lemma_touched(u, a);
    lemma_touched(t, b);
    assert(u.connect(a, b).nodes == w.nodes);
}

proof fn lemma_touched(u: ClassesV, a: NodeV)
    ensures
        forall|x: NodeV| #[trigger] u.touch(a).nodes.contains(x) <==> u.nodes.contains(x) || x == a,
{
    lemma_node_at(u.nodes, a, 0);
    let t = u.touch(a);
    assert forall|x: NodeV| #[trigger] t.nodes.contains(x) <==> u.nodes.contains(x) || x == a by {
        if u.nodes.contains(x) {
            let i = choose|i: int| 0 <= i < u.nodes.len() && u.nodes[i] == x;
            assert(t.nodes[i] == x);
        }
        if u.has(a) {
            assert(u.nodes[node_at(u.nodes, a, 0)] == a);
        } else {
            assert(t.nodes[u.nodes.len() as int] == a);
        }
    }
}

/// Whether classes came from others by steps that bring up no pin.
spec fn same_pins(u: ClassesV, w: ClassesV) -> bool {
    &&& w.wf()
    &&& forall|r: Seq<char>, k: Seq<char>| #[trigger]
        w.nodes.contains(NodeV::Pin(r, k)) <==> u.nodes.contains(NodeV::Pin(r, k))
}

proof fn lemma_wires(u: ClassesV, segs: Seq<(Key, Key)>, n: int)
    requires
        u.wf(),
    ensures
        same_pins(u, wire_classes(u, segs, n)),
    decreases n,
{
    if n > 0 {
        lemma_wires(u, segs, n - 1);
        lemma_connect(
            wire_classes(u, segs, n - 1),
            NodeV::Pt(segs[n - 1].0),
            NodeV::Pt(segs[n - 1].1),
        );
    }
}

proof fn lemma_met(u: ClassesV, p: Key, segs: Seq<(Key, Key)>, n: int)
    requires
        u.wf(),
    ensures
        same_pins(u, met_classes(u, p, segs, n)),
    decreases n,
{
    if n > 0 {
        lemma_met(u, p, segs, n - 1);
        lemma_connect(met_classes(u, p, segs, n - 1), NodeV::Pt(p), NodeV::Pt(segs[n - 1].0));
    }
}

proof fn lemma_tees(u: ClassesV, pts: Seq<Key>, segs: Seq<(Key, Key)>, n: int)
    requires
        u.wf(),
    ensures
        same_pins(u, tee_classes(u, pts, segs, n)),
    decreases n,
{
    if n > 0 {
        lemma_tees(u, pts, segs, n - 1);
        lemma_met(tee_classes(u, pts, segs, n - 1), pts[n - 1], segs, segs.len() as int);
    }
}

proof fn lemma_labels(u: ClassesV, at: Seq<(Key, int)>, labels: Seq<LabelV>, n: int)
    requires
        u.wf(),
    ensures
        same_pins(u, label_classes(u, at, labels, n)),
    decreases n,
{
    if n > 0 {
        lemma_labels(u, at, labels, n - 1);
        lemma_connect(
            label_classes(u, at, labels, n - 1),
            NodeV::Pt(at[n - 1].0),
            NodeV::Net(labels[at[n - 1].1].text),
        );
    }
}

proof fn lemma_power(u: ClassesV, power: Seq<PowerV>, n: int)
    requires
        u.wf(),
    ensures
        same_pins(u, power_classes(u, power, n)),
    decreases n,
{
    if n > 0 {
        lemma_power(u, power, n - 1);
        lemma_connect(
            power_classes(u, power, n - 1),
            NodeV::Pt(compile::key_spec(power[n - 1].at)),
            NodeV::Net(power[n - 1].net),
        );
    }
}

/// Whether a pin is among the first `n` references.
pub open spec fn refers(refs: Seq<compile::PinRefV>, r: Seq<char>, k: Seq<char>, n: int) -> bool {
    exists|i: int| 0 <= i < n && (#[trigger] refs[i]).owner == r && refs[i].number == k
}

/// Whether a pin stands at one of the first `n` points, not marked as unconnected.
pub open spec fn pin_on(
    pins: compile::PinsAtV,
    nc: Seq<Key>,
    r: Seq<char>,
    k: Seq<char>,
    n: int,
) -> bool {
    exists|i: int|
        0 <= i < n && !nc.contains((#[trigger] pins[i]).0) && refers(
            pins[i].1,
            r,
            k,
            pins[i].1.len() as int,
        )
}

proof fn lemma_refs(u: ClassesV, p: Key, refs: Seq<compile::PinRefV>, n: int)
    requires
        u.wf(),
        0 <= n <= refs.len(),
    ensures
        ref_classes(u, p, refs, n).wf(),
        forall|r: Seq<char>, k: Seq<char>| #[trigger]
            ref_classes(u, p, refs, n).nodes.contains(NodeV::Pin(r, k)) <==> u.nodes.contains(
                NodeV::Pin(r, k),
            ) || refers(refs, r, k, n),
    decreases n,
{
    if n > 0 {
        lemma_refs(u, p, refs, n - 1);
        let w = ref_classes(u, p, refs, n - 1);
        let x = refs[n - 1];
        lemma_connect(w, NodeV::Pt(p), NodeV::Pin(x.owner, x.number));
        assert forall|r: Seq<char>, k: Seq<char>| #[trigger]
            ref_classes(u, p, refs, n).nodes.contains(NodeV::Pin(r, k)) <==> u.nodes.contains(
                NodeV::Pin(r, k),
            ) || refers(refs, r, k, n) by {
            assert(w.nodes.contains(NodeV::Pin(r, k)) <==> u.nodes.contains(NodeV::Pin(r, k))
                || refers(refs, r, k, n - 1));
            if refers(refs, r, k, n - 1) {
                let i = choose|i: int|
                    0 <= i < n - 1 && (#[trigger] refs[i]).owner == r && refs[i].number == k;
                assert(refs[i].owner == r);
            }
            if refers(refs, r, k, n) {
                let i = choose|i: int|
                    0 <= i < n && (#[trigger] refs[i]).owner == r && refs[i].number == k;
                assert(i < n - 1 ==> refers(refs, r, k, n - 1));
            }
            if x.owner == r && x.number == k {
                assert(refs[n - 1].owner == r);
            }
        }
    }
}

proof fn lemma_pins(u: ClassesV, pins: compile::PinsAtV, nc: Seq<Key>, n: int)
    requires
        u.wf(),
        0 <= n <= pins.len(),
    ensures
        pin_classes(u, pins, nc, n).wf(),
        forall|r: Seq<char>, k: Seq<char>| #[trigger]
            pin_classes(u, pins, nc, n).nodes.contains(NodeV::Pin(r, k)) <==> u.nodes.contains(
                NodeV::Pin(r, k),
            ) || pin_on(pins, nc, r, k, n),
    decreases n,
{
    if n > 0 {
        lemma_pins(u, pins, nc, n - 1);
        let w = pin_classes(u, pins, nc, n - 1);
        let e = pins[n - 1];
        if !nc.contains(e.0) {
            lemma_refs(w, e.0, e.1, e.1.len() as int);
        }
        assert forall|r: Seq<char>, k: Seq<char>| #[trigger]
            pin_classes(u, pins, nc, n).nodes.contains(NodeV::Pin(r, k)) <==> u.nodes.contains(
                NodeV::Pin(r, k),
            ) || pin_on(pins, nc, r, k, n) by {
            assert(w.nodes.contains(NodeV::Pin(r, k)) <==> u.nodes.contains(NodeV::Pin(r, k))
                || pin_on(pins, nc, r, k, n - 1));
            if pin_on(pins, nc, r, k, n) {
                let i = choose|i: int|
                    0 <= i < n && !nc.contains((#[trigger] pins[i]).0) && refers(
                        pins[i].1,
                        r,
                        k,
                        pins[i].1.len() as int,
                    );
                assert(i < n - 1 ==> pin_on(pins, nc, r, k, n - 1));
            }
            if pin_on(pins, nc, r, k, n - 1) {
                let i = choose|i: int|
                    0 <= i < n - 1 && !nc.contains((#[trigger] pins[i]).0) && refers(
                        pins[i].1,
                        r,
                        k,
                        pins[i].1.len() as int,
                    );
                assert(!nc.contains(pins[i].0));
            }
            if !nc.contains(e.0) && refers(e.1, r, k, e.1.len() as int) {
                assert(!nc.contains(pins[n - 1].0));
            }
        }
    }
}

/// The nets of a sheet divide its pins: what is connected holds each pin that stands on the sheet
/// and is not marked as unconnected, each once and no others, and each of those that belong to a
/// real part is a member of exactly one net.
pub proof fn nets_divide_the_pins(
    des: DesignV,
    pins: compile::PinsAtV,
    segs: Seq<(Key, Key)>,
    at: Seq<(Key, int)>,
)
    ensures
        ({
            let u = sheet_classes(des, pins, segs, at);
            let nets = sheet_nets(des, pins, segs, at).nets;
            &&& u.nodes.no_duplicates()
            &&& forall|r: Seq<char>, k: Seq<char>| #[trigger]
                u.nodes.contains(NodeV::Pin(r, k)) <==> pin_on(
                    pins,
                    marks(des.nc),
                    r,
                    k,
                    pins.len() as int,
                )
            &&& all_members(nets, nets.len() as int) == pin_texts(
                u.nodes,
                u.nodes.len() as int,
            ).to_multiset()
        }),
{
    let all = pin_keys(pins) + label_keys(at) + seg_ends(segs, segs.len() as int);
    let pts = points_once(all, all.len() as int);
    let u0 = ClassesV::empty();
    lemma_wires(u0, segs, segs.len() as int);
    let u1 = wire_classes(u0, segs, segs.len() as int);
    lemma_tees(u1, pts, segs, pts.len() as int);
    let u2 = tee_classes(u1, pts, segs, pts.len() as int);
    lemma_pins(u2, pins, marks(des.nc), pins.len() as int);
    let u3 = pin_classes(u2, pins, marks(des.nc), pins.len() as int);
    lemma_labels(u3, at, des.labels, at.len() as int);
    let u4 = label_classes(u3, at, des.labels, at.len() as int);
    lemma_power(u4, des.power, des.power.len() as int);
    let u = sheet_classes(des, pins, segs, at);
    assert forall|r: Seq<char>, k: Seq<char>| #[trigger]
        u.nodes.contains(NodeV::Pin(r, k)) <==> pin_on(
            pins,
            marks(des.nc),
            r,
            k,
            pins.len() as int,
        ) by {
        let x = NodeV::Pin(r, k);
        assert(u.nodes.contains(x) <==> u4.nodes.contains(x));
        assert(u4.nodes.contains(x) <==> u3.nodes.contains(x));
        assert(u3.nodes.contains(x) <==> u2.nodes.contains(x) || pin_on(
            pins,
            marks(des.nc),
            r,
            k,
            pins.len() as int,
        ));
        assert(u2.nodes.contains(x) <==> u1.nodes.contains(x));
        assert(u1.nodes.contains(x) <==> u0.nodes.contains(x));
    }
    let order = class_order(u, u.nodes.len() as int);
    lemma_order(u, u.nodes.len() as int);
    lemma_all_classes(u, order, u.nodes.len() as int);
    lemma_nets_pins(u, order, order.len() as int);
}

} // verus!
