//! Writing a circuit again without moving what its user has moved: components that survive keep
//! their places, orientations and identifiers, and everything else is drawn anew.
use crate::emit;
use crate::emit::{snap_point, snap_sum};
use crate::geom::Pt;
use crate::grammar;
use crate::grammar::is_ground;
use crate::ids;
use crate::ids::stable_uuid;
use crate::kernel;
use crate::kernel::{Block, BlockGraph, Chain, Cluster, ClusterGeom, Component, Design, Link, Origin};
use crate::kernel::{PinTarget, Provider};
use crate::order_map;
use crate::text;
use crate::text::{debug_text, is_before, join, same, starts_with, Line};
use crate::tree;
use indexmap::IndexMap;
pub use crate::wiring::{emit_design_reconciled, EmitOutput};
use vstd::prelude::*;

verus! {

/// Property of the block a component belongs to.
pub const AP_BLOCK: &'static str = "ap_block";

/// Property of the role of a synthesized component.
pub const AP_ROLE: &'static str = "ap_role";

/// Property of the component that a synthesized one belongs to.
pub const AP_PARENT: &'static str = "ap_parent";

/// Property of the number of a synthesized component.
pub const AP_INDEX: &'static str = "ap_index";

/// Property of the revision that a component was placed under.
pub const AP_LAYOUT_REV: &'static str = "ap_layout_rev";

/// The role of authored components.
pub const ROLE_AUTHORED: &'static str = "authored";

// ---------------------------------------------------------------- lists with names
pub open spec fn named<V>(v: Seq<(String, V)>) -> Seq<(Seq<char>, V)> {
    Seq::new(v.len(), |i: int| (v[i].0@, v[i].1))
}

/// The position of the first entry under a name, or the length.
pub fn seek_name<V>(v: &Vec<(String, V)>, k: &str) -> (r: usize)
    ensures
        r <= v@.len(),
        r == order_map::seek(named(v@), k@, 0),
{
    let ghost m = named(v@);
    let mut i: usize = 0;
    while i < v.len()
        invariant
            i <= v@.len(),
            m == named(v@),
            order_map::seek(m, k@, 0) == order_map::seek(m, k@, i as int),
        decreases v@.len() - i,
    {
        assert(m[i as int].0 == v@[i as int].0@);
        if same(v[i].0.as_str(), k) {
            return i;
        }
        i += 1;
    }
    i
}

/// What a list holds under a name.
pub fn find_named<'a, V>(v: &'a Vec<(String, V)>, k: &str) -> (r: Option<&'a V>)
    ensures
        match r {
            Some(x) => order_map::look(named(v@), k@) == Some(*x),
            None => order_map::look(named(v@), k@) is None,
        },
{
    let i = seek_name(v, k);
    if i < v.len() {
        assert(named(v@)[i as int] == (v@[i as int].0@, v@[i as int].1));
        Some(&v[i].1)
    } else {
        None
    }
}

// ---------------------------------------------------------------- what to place anew
/// Which earlier placements to discard.
#[derive(Debug, Clone, PartialEq, Eq)]
pub enum Relayout {
    /// None: every placement that is still valid stays.
    Keep,
    /// All of them.
    All,
    /// Those of the named blocks.
    Blocks(Vec<String>),
}

impl Relayout {
    pub open spec fn forced(&self, block: Seq<char>) -> bool {
        match *self {
            Relayout::Keep => false,
            Relayout::All => true,
            Relayout::Blocks(v) => text::views(v@).contains(block),
        }
    }

    /// Whether the placements of a block are discarded.
    pub fn forces(&self, block: &str) -> (r: bool)
        ensures
            r == self.forced(block@),
    {
        match self {
            Relayout::Keep => false,
            Relayout::All => true,
            Relayout::Blocks(v) => crate::names::has_name(v, block),
        }
    }
}

// ---------------------------------------------------------------- revisions
pub open spec fn links_text(v: Seq<Link>, n: int) -> Seq<char>
    decreases n,
{
    if n <= 0 {
        ""@
    } else {
        links_text(v, n - 1) + v[n - 1].refdes@ + "("@ + v[n - 1].a_net@ + "->"@ + v[n - 1].b_net@
            + ")|"@
    }
}

pub open spec fn chains_text(v: Seq<Chain>, n: int) -> Seq<char>
    decreases n,
{
    if n <= 0 {
        ""@
    } else {
        chains_text(v, n - 1) + "chain["@ + v[n - 1].class@ + "]:"@ + links_text(
            v[n - 1].links@,
            v[n - 1].links@.len() as int,
        )
    }
}

/// Names as they are shown in a list.
pub open spec fn quoted_names(v: Seq<String>) -> Seq<Seq<char>> {
    Seq::new(v.len(), |i: int| text::debug_shown(v[i]@))
}

pub open spec fn banks_text(v: Seq<kernel::Bank>, n: int) -> Seq<char>
    decreases n,
{
    if n <= 0 {
        ""@
    } else {
        banks_text(v, n - 1) + "bank["@ + v[n - 1].a_net@ + "/"@ + v[n - 1].b_net@ + "]:["@
            + text::joined(quoted_names(v[n - 1].members@), ", "@) + "]|"@
    }
}

/// The description of a cluster: what its placement depends on.
pub open spec fn cluster_text(c: Cluster) -> Seq<char> {
    chains_text(c.chains@, c.chains@.len() as int) + banks_text(c.banks@, c.banks@.len() as int)
}

/// The revision of a cluster.
pub open spec fn cluster_rev(c: Cluster) -> Seq<char> {
    ids::stable("grammar_rev"@, cluster_text(c))
}

fn write_links(v: &Vec<Link>) -> (r: String)
    ensures
        r@ == links_text(v@, v@.len() as int),
{
    let mut s = "".to_owned();
    let mut i: usize = 0;
    while i < v.len()
        invariant
            i <= v@.len(),
            s@ == links_text(v@, i as int),
        decreases v@.len() - i,
    {
        s = Line::of(s.as_str()).add(v[i].refdes.as_str()).add("(").add(v[i].a_net.as_str()).add(
            "->",
        ).add(v[i].b_net.as_str()).add(")|").done();
        i += 1;
    }
    s
}

fn quote_names(v: &Vec<String>) -> (r: Vec<String>)
    ensures
        text::views(r@) == quoted_names(v@),
{
    let mut r: Vec<String> = Vec::new();
    let ghost want = quoted_names(v@);
    let mut i: usize = 0;
    while i < v.len()
        invariant
            i <= v@.len(),
            r@.len() == i,
            want == quoted_names(v@),
            forall|k: int| 0 <= k < i ==> (#[trigger] r@[k])@ == want[k],
        decreases v@.len() - i,
    {
        r.push(debug_text(v[i].as_str()));
        i += 1;
    }
    assert(text::views(r@) =~= want);
    r
}

/// The revision of a cluster: it changes with the class, the links or the nets of a chain and with
/// the nets or the members of a bank.
pub fn grammar_rev(cluster: &Cluster) -> (r: String)
    ensures
        r@ == cluster_rev(*cluster),
{
    let mut a = "".to_owned();
    let mut i: usize = 0;
    while i < cluster.chains.len()
        invariant
            i <= cluster.chains@.len(),
            a@ == chains_text(cluster.chains@, i as int),
        decreases cluster.chains@.len() - i,
    {
        let l = write_links(&cluster.chains[i].links);
        a = Line::of(a.as_str()).add("chain[").add(cluster.chains[i].class.as_str()).add("]:").add(
            l.as_str(),
        ).done();
        i += 1;
    }
    let mut b = "".to_owned();
    let mut j: usize = 0;
    while j < cluster.banks.len()
        invariant
            j <= cluster.banks@.len(),
            b@ == banks_text(cluster.banks@, j as int),
        decreases cluster.banks@.len() - j,
    {
        let q = quote_names(&cluster.banks[j].members);
        let m = join(&q, ", ");
        b = Line::of(b.as_str()).add("bank[").add(cluster.banks[j].a_net.as_str()).add("/").add(
            cluster.banks[j].b_net.as_str(),
        ).add("]:[").add(m.as_str()).add("]|").done();
        j += 1;
    }
    let d = Line::of(a.as_str()).add(b.as_str()).done();
    stable_uuid("grammar_rev", d.as_str())
}

pub open spec fn role_text(c: Component) -> Seq<char> {
    if c.rail_span {
        "Some(RailSpan)"@
    } else {
        "None"@
    }
}

pub open spec fn layout_text(b: Block, c: Component, cluster: Option<Cluster>) -> Seq<char> {
    let d = "placer=v2|edge="@ + b.edge@ + "|near="@ + b.near@ + "|role="@ + role_text(c);
    match cluster {
        Some(k) => d + "|cluster="@ + cluster_rev(k),
        None => d,
    }
}

/// The revision of a component: what its placement depends on, and not what stands beside it.
pub open spec fn revision(b: Block, c: Component, cluster: Option<Cluster>) -> Seq<char> {
    ids::stable("layout_rev"@, layout_text(b, c, cluster))
}

pub fn layout_rev(block: &Block, comp: &Component, cluster: Option<&Cluster>) -> (r: String)
    ensures
        r@ == revision(
            *block,
            *comp,
            match cluster {
                Some(k) => Some(*k),
                None => None,
            },
        ),
{
    let role = if comp.rail_span { "Some(RailSpan)" } else { "None" };
    let d = Line::of("placer=v2|edge=").add(block.edge.as_str()).add("|near=").add(
        block.near.as_str(),
    ).add("|role=").add(role).done();
    match cluster {
        Some(k) => {
            let g = grammar_rev(k);
            let e = Line::of(d.as_str()).add("|cluster=").add(g.as_str()).done();
            stable_uuid("layout_rev", e.as_str())
        },
        None => stable_uuid("layout_rev", d.as_str()),
    }
}

/// The revision of a member of a cluster.
pub fn member_rev(block: &Block, comp: &Component, cluster: &Cluster) -> (r: String)
    ensures
        r@ == revision(*block, *comp, Some(*cluster)),
{
    layout_rev(block, comp, Some(cluster))
}

// ---------------------------------------------------------------- identity
/// What a component is known by from one writing to the next.
#[derive(Debug, Clone, PartialEq, Eq, Hash)]
pub enum Identity {
    /// An authored component, by its reference.
    Authored(String),
    /// A synthesized one, by where it comes from.
    Synthesized { parent: String, role: String, index: u32 },
}

#[verifier::ext_equal]
pub enum IdentityV {
    Authored(Seq<char>),
    Synthesized { parent: Seq<char>, role: Seq<char>, index: u32 },
}

impl Identity {
    pub open spec fn view(&self) -> IdentityV {
        match *self {
            Identity::Authored(r) => IdentityV::Authored(r@),
            Identity::Synthesized { parent, role, index } => IdentityV::Synthesized {
                parent: parent@,
                role: role@,
                index,
            },
        }
    }

    /// The identity of a component: its reference, or where it was synthesized from.
    pub fn of(refdes: &str, origin: &Origin) -> (r: Identity)
        ensures
            r@ == identity_of(refdes@, *origin),
    {
        match origin {
            Origin::Authored => Identity::Authored(refdes.to_owned()),
            Origin::Synthesized { parent, role, index } => Identity::Synthesized {
                parent: parent.clone(),
                role: role.clone(),
                index: *index,
            },
        }
    }

    /// Whether two identities are the same.
    pub fn is(&self, other: &Identity) -> (r: bool)
        ensures
            r == (self@ == other@),
    {
        match (self, other) {
            (Identity::Authored(a), Identity::Authored(b)) => same(a.as_str(), b.as_str()),
            (
                Identity::Synthesized { parent: p, role: q, index: i },
                Identity::Synthesized { parent: x, role: y, index: j },
            ) => *i == *j && same(p.as_str(), x.as_str()) && same(q.as_str(), y.as_str()),
            _ => false,
        }
    }
}

pub open spec fn identity_of(refdes: Seq<char>, origin: Origin) -> IdentityV {
    match origin {
        Origin::Authored => IdentityV::Authored(refdes),
        Origin::Synthesized { parent, role, index } => IdentityV::Synthesized {
            parent: parent@,
            role: role@,
            index,
        },
    }
}

/// The identity of a synthesized component does not depend on its reference.
pub proof fn synthesized_outlives_its_reference(a: Seq<char>, b: Seq<char>, o: Origin)
    requires
        o is Synthesized,
    ensures
        identity_of(a, o) == identity_of(b, o),
{
}

/// Authored components have the same identity exactly if they have the same reference.
pub proof fn authored_goes_by_reference(a: Seq<char>, b: Seq<char>)
    ensures
        identity_of(a, Origin::Authored) == identity_of(b, Origin::Authored) <==> a == b,
{
}

/// Properties that record where a component belongs and comes from.
pub open spec fn tags(block: Seq<char>, origin: Origin, rev: Seq<char>) -> Seq<
    (Seq<char>, Seq<char>),
> {
    let head = seq![(AP_BLOCK@, block), (AP_LAYOUT_REV@, rev)];
    match origin {
        Origin::Authored => head.push((AP_ROLE@, ROLE_AUTHORED@)),
        Origin::Synthesized { parent, role, index } => head.push((AP_ROLE@, role@)).push(
            (AP_PARENT@, parent@),
        ).push((AP_INDEX@, text::digits(index as nat))),
    }
}

pub fn ap_properties(block: &str, origin: &Origin, rev: &str) -> (r: Vec<(String, String)>)
    ensures
        emit::pairs_v(r@) == tags(block@, *origin, rev@),
{
    let mut r: Vec<(String, String)> = Vec::new();
    r.push((AP_BLOCK.to_owned(), block.to_owned()));
    r.push((AP_LAYOUT_REV.to_owned(), rev.to_owned()));
    match origin {
        Origin::Authored => {
            r.push((AP_ROLE.to_owned(), ROLE_AUTHORED.to_owned()));
        },
        Origin::Synthesized { parent, role, index } => {
            r.push((AP_ROLE.to_owned(), role.clone()));
            r.push((AP_PARENT.to_owned(), parent.clone()));
            r.push((AP_INDEX.to_owned(), text::decimal_u128(*index as u128)));
        },
    }
    assert(emit::pairs_v(r@) =~= tags(block@, *origin, rev@));
    r
}

// ---------------------------------------------------------------- an earlier sheet
/// A symbol as an earlier sheet shows it.
#[derive(Debug, Clone)]
pub struct PriorSymbol {
    pub at: Option<Pt>,
    pub angle: Option<i32>,
    pub reference: Option<String>,
    pub uuid: Option<String>,
    pub properties: Vec<(String, String)>,
}

/// Where a component stood on an earlier sheet.
#[derive(Debug, Clone)]
pub struct PriorPlacement {
    pub at: Pt,
    pub angle: i32,
    /// The identifier of the instance.
    pub uuid: Option<String>,
    /// The revision it was placed under; none on a sheet that did not record it.
    pub layout_rev: Option<String>,
}

#[verifier::ext_equal]
pub struct PriorV {
    pub at: Pt,
    pub angle: i32,
    pub uuid: Option<Seq<char>>,
    pub layout_rev: Option<Seq<char>>,
}

impl PriorPlacement {
    pub open spec fn view(&self) -> PriorV {
        PriorV {
            at: self.at,
            angle: self.angle,
            uuid: tree::text_v(self.uuid),
            layout_rev: tree::text_v(self.layout_rev),
        }
    }
}

/// The placements of an earlier sheet, each identity once.
pub type PriorMap = Vec<(Identity, PriorPlacement)>;

pub open spec fn prior_v(v: Seq<(Identity, PriorPlacement)>) -> Seq<(IdentityV, PriorV)> {
    Seq::new(v.len(), |i: int| (v[i].0@, v[i].1@))
}

/// The first entry of an identity from `i` on, or the number of entries.
pub open spec fn prior_at(v: Seq<(IdentityV, PriorV)>, id: IdentityV, i: int) -> int
    decreases v.len() - i,
{
    if i < 0 || i >= v.len() || v[i].0 == id {
        i
    } else {
        prior_at(v, id, i + 1)
    }
}

pub open spec fn earlier(v: Seq<(IdentityV, PriorV)>, id: IdentityV) -> Option<PriorV> {
    let i = prior_at(v, id, 0);
    if i < v.len() {
        Some(v[i].1)
    } else {
        None
    }
}

pub open spec fn with_prior(v: Seq<(IdentityV, PriorV)>, id: IdentityV, p: PriorV) -> Seq<
    (IdentityV, PriorV),
> {
    let i = prior_at(v, id, 0);
    if i < v.len() {
        v.update(i, (id, p))
    } else {
        v.push((id, p))
    }
}

fn find_prior_at(v: &PriorMap, id: &Identity) -> (r: usize)
    ensures
        r <= v@.len(),
        r == prior_at(prior_v(v@), id@, 0),
{
    let ghost m = prior_v(v@);
    let mut i: usize = 0;
    while i < v.len()
        invariant
            i <= v@.len(),
            m == prior_v(v@),
            prior_at(m, id@, 0) == prior_at(m, id@, i as int),
        decreases v@.len() - i,
    {
        assert(m[i as int].0 == v@[i as int].0@);
        if v[i].0.is(id) {
            return i;
        }
        i += 1;
    }
    i
}

/// The earlier placement of an identity.
pub fn find_prior<'a>(v: &'a PriorMap, id: &Identity) -> (r: Option<&'a PriorPlacement>)
    ensures
        match r {
            Some(p) => earlier(prior_v(v@), id@) == Some(p@),
            None => earlier(prior_v(v@), id@) is None,
        },
{
    let i = find_prior_at(v, id);
    if i < v.len() {
        assert(prior_v(v@)[i as int] == (v@[i as int].0@, v@[i as int].1@));
        Some(&v[i].1)
    } else {
        None
    }
}

/// The value of a property, the first of its name.
pub open spec fn property(v: Seq<(String, String)>, key: Seq<char>) -> Option<Seq<char>> {
    order_map::look(emit::pairs_v(v), key)
}

fn find_property<'a>(v: &'a Vec<(String, String)>, key: &str) -> (r: Option<&'a String>)
    ensures
        match r {
            Some(s) => property(v@, key@) == Some(s@),
            None => property(v@, key@) is None,
        },
{
    let ghost m = emit::pairs_v(v@);
    let mut i: usize = 0;
    while i < v.len()
        invariant
            i <= v@.len(),
            m == emit::pairs_v(v@),
            order_map::seek(m, key@, 0) == order_map::seek(m, key@, i as int),
        decreases v@.len() - i,
    {
        assert(m[i as int] == (v@[i as int].0@, v@[i as int].1@));
        if same(v[i].0.as_str(), key) {
            return Some(&v[i].1);
        }
        i += 1;
    }
    None
}

/// The number that the first `n` characters write, if they are digits.
pub open spec fn digits_value(s: Seq<char>, from: int, n: int) -> Option<int>
    decreases n,
{
    if n <= 0 || n <= from {
        Some(0)
    } else {
        match digits_value(s, from, n - 1) {
            Some(v) => if text::is_digit(s[n - 1]) {
                Some(10 * v + (s[n - 1] as int - 48))
            } else {
                None
            },
            None => None,
        }
    }
}

/// Where the digits of a numeral start: behind a plus sign.
pub open spec fn digits_from(s: Seq<char>) -> int {
    if s.len() > 0 && s[0] == '+' {
        1
    } else {
        0
    }
}

/// What a numeral means as a 32-bit count.
pub open spec fn count_value(s: Seq<char>) -> Option<u32> {
    let from = digits_from(s);
    match digits_value(s, from, s.len() as int) {
        Some(v) => if from < s.len() && v <= u32::MAX {
            Some(v as u32)
        } else {
            None
        },
        None => None,
    }
}

proof fn lemma_digits_grow(s: Seq<char>, from: int, n: int, m: int)
    requires
        0 <= from,
        n <= m <= s.len(),
    ensures
        digits_value(s, from, n) is None ==> digits_value(s, from, m) is None || m <= from,
        (digits_value(s, from, n) is Some && digits_value(s, from, m) is Some) ==> 0
            <= digits_value(s, from, n)->0 <= digits_value(s, from, m)->0,
    decreases m - n, m,
{
    if n < m {
        lemma_digits_grow(s, from, n, m - 1);
    } else if from < m {
        lemma_digits_grow(s, from, n - 1, m - 1);
    }
}

fn read_count(s: &str) -> (r: Option<u32>)
    ensures
        r == count_value(s@),
{
    let v = text::chars_of(s);
    let mut i: usize = if v.len() > 0 && v[0] == '+' { 1 } else { 0 };
    let ghost from = i as int;
    if i >= v.len() {
        return None;
    }
    let mut n: u64 = 0;
    while i < v.len()
        invariant
            v@ == s@,
            from == digits_from(s@),
            from <= i <= v@.len(),
            from < v@.len(),
            n <= u32::MAX,
            digits_value(s@, from, i as int) == Some(n as int),
        decreases v@.len() - i,
    {
        let c = v[i];
        proof {
            lemma_digits_grow(s@, from, i + 1, s@.len() as int);
        }
        if !('0' <= c && c <= '9') {
            return None;
        }
        let d: u64 = c as u64 - 48;
        n = 10 * n + d;
        if n > u32::MAX as u64 {
            return None;
        }
        i += 1;
    }
    Some(n as u32)
}

/// Whether a reference belongs to a component: not to a power symbol or a flag.
pub open spec fn is_part_ref(r: Option<String>) -> bool {
    r is Some && !text::starts(r->0@, "#"@)
}

/// The identity that a symbol of a sheet records.
pub open spec fn recorded(s: PriorSymbol) -> IdentityV {
    let role = property(s.properties@, AP_ROLE@);
    let parent = property(s.properties@, AP_PARENT@);
    let index = match property(s.properties@, AP_INDEX@) {
        Some(t) => count_value(t),
        None => None,
    };
    if role is Some && parent is Some && index is Some && role->0 != ROLE_AUTHORED@ && role->0.len()
        > 0 && parent->0.len() > 0 {
        IdentityV::Synthesized { parent: parent->0, role: role->0, index: index->0 }
    } else {
        IdentityV::Authored(s.reference->0@)
    }
}

pub open spec fn recorded_place(s: PriorSymbol) -> PriorV {
    PriorV {
        at: s.at->0,
        angle: match s.angle {
            Some(a) => a,
            None => 0,
        },
        uuid: tree::text_v(s.uuid),
        layout_rev: property(s.properties@, AP_LAYOUT_REV@),
    }
}

/// The placements that the first `n` symbols of a sheet record.
pub open spec fn recorded_all(v: Seq<PriorSymbol>, n: int) -> Seq<(IdentityV, PriorV)>
    decreases n,
{
    if n <= 0 {
        Seq::empty()
    } else {
        let rest = recorded_all(v, n - 1);
        if v[n - 1].at is Some && is_part_ref(v[n - 1].reference) {
            with_prior(rest, recorded(v[n - 1]), recorded_place(v[n - 1]))
        } else {
            rest
        }
    }
}

fn read_identity(s: &PriorSymbol, reference: &str) -> (r: Identity)
    requires
        s.reference is Some,
        s.reference->0@ == reference@,
    ensures
        r@ == recorded(*s),
{
    let role = find_property(&s.properties, AP_ROLE);
    let parent = find_property(&s.properties, AP_PARENT);
    let index = match find_property(&s.properties, AP_INDEX) {
        Some(t) => read_count(t.as_str()),
        None => None,
    };
    match (role, parent, index) {
        (Some(q), Some(p), Some(i)) => {
            let ql = text::chars_of(q.as_str());
            let pl = text::chars_of(p.as_str());
            if !same(q.as_str(), ROLE_AUTHORED) && ql.len() > 0 && pl.len() > 0 {
                return Identity::Synthesized { parent: p.clone(), role: q.clone(), index: i };
            }
        },
        _ => {},
    }
    Identity::Authored(reference.to_owned())
}

fn dup_text(t: &Option<String>) -> (r: Option<String>)
    ensures
        tree::text_v(r) == tree::text_v(*t),
{
    match t {
        Some(s) => Some(s.clone()),
        None => None,
    }
}

/// The placements that a sheet records: of every symbol with a place and a component's reference;
/// of two under one identity, the later.
pub fn prior_of_symbols(v: &Vec<PriorSymbol>) -> (r: PriorMap)
    ensures
        prior_v(r@) == recorded_all(v@, v@.len() as int),
{
    let mut r: PriorMap = Vec::new();
    let mut i: usize = 0;
    assert(prior_v(r@) =~= recorded_all(v@, 0));
    while i < v.len()
        invariant
            i <= v@.len(),
            prior_v(r@) == recorded_all(v@, i as int),
        decreases v@.len() - i,
    {
        let s = &v[i];
        let ghost r0 = prior_v(r@);
        match (s.at, &s.reference) {
            (Some(at), Some(reference)) => {
                if !starts_with(reference.as_str(), "#") {
                    let id = read_identity(s, reference.as_str());
                    let angle: i32 = match s.angle {
                        Some(a) => a,
                        None => 0,
                    };
                    let layout_rev = match find_property(&s.properties, AP_LAYOUT_REV) {
                        Some(t) => Some(t.clone()),
                        None => None,
                    };
                    let p = PriorPlacement { at, angle, uuid: dup_text(&s.uuid), layout_rev };
                    assert(p@ == recorded_place(*s));
                    let k = find_prior_at(&r, &id);
                    let ghost (iv, pv) = (id@, p@);
                    if k < r.len() {
                        r.set(k, (id, p));
                        assert(prior_v(r@) =~= r0.update(k as int, (iv, pv)));
                    } else {
                        r.push((id, p));
                        assert(prior_v(r@) =~= r0.push((iv, pv)));
                    }
                }
            },
            _ => {},
        }
        i += 1;
    }
    r
}

// ---------------------------------------------------------------- where components stand
/// Where the placer puts everything.
#[derive(Debug, Clone)]
pub struct Layout {
    pub positions: Vec<(String, Pt)>,
    pub angles: Vec<(String, i32)>,
    pub cluster_origins: Vec<(String, Pt)>,
    /// Wires that join a cluster to a pin: the pin end, the other end, the net.
    pub joins: Vec<(Pt, Pt, String)>,
}

/// Where a member stands inside its cluster.
#[derive(Debug, Clone)]
pub struct MemberInfo {
    pub cluster_key: String,
    pub cluster_idx: usize,
    pub local: Pt,
    pub angle: i32,
}

/// What the layout grammar makes of a circuit.
#[derive(Debug, Clone)]
pub struct GrammarInputs {
    /// The size of each component whose symbol is known.
    pub sizes: Vec<(String, (i64, i64))>,
    pub graphs: Vec<(String, BlockGraph)>,
    /// The drawing of each cluster, in the order of the graphs.
    pub geoms: Vec<(String, Vec<ClusterGeom>)>,
    pub members: Vec<(String, MemberInfo)>,
    /// Pins whose connections a cluster shows.
    pub covered: Vec<(String, String)>,
}

/// The key of a cluster: its block and its number there.
pub open spec fn key_of_cluster(block: Seq<char>, idx: nat) -> Seq<char> {
    block + "\0"@ + text::digits(idx)
}

/// The key of a cluster: its block and its number there.
pub fn cluster_key(block: &str, idx: usize) -> (r: String)
    ensures
        r@ == key_of_cluster(block@, idx as nat),
{
    Line::of(block).add("\0").count(idx as u128).done()
}

/// The orientation of a component that the placer has none for.
pub open spec fn first_angle(c: Component) -> i32 {
    let i = order_map::seek(named(c.pins@), "1"@, 0);
    if c.rail_span && i < c.pins@.len() && c.pins@[i].1 is Net && grammar::hangs_down(
        c.pins@[i].1->Net_0@,
    ) {
        180
    } else {
        0
    }
}

/// The orientation of a component that the placer has none for: one that spans a rail stands with
/// its ground side down.
pub fn initial_angle(c: &Component) -> (r: i32)
    ensures
        r == first_angle(*c),
{
    if !c.rail_span {
        return 0;
    }
    let i = seek_name(&c.pins, "1");
    if i < c.pins.len() {
        match &c.pins[i].1 {
            PinTarget::Net(n) => if is_ground(n.as_str()) {
                180
            } else {
                0
            },
            PinTarget::NoConnect => 0,
        }
    } else {
        0
    }
}

pub open spec fn rail_symbol(net: Seq<char>) -> Option<Seq<char>> {
    if net == "3V3"@ {
        Some("power:+3V3"@)
    } else if net == "5V"@ {
        Some("power:+5V"@)
    } else if net == "12V"@ {
        Some("power:+12V"@)
    } else {
        None
    }
}

/// The symbol of a rail: its own, that of an alias, else the plain one.
pub open spec fn power_symbol(net: Seq<char>, p: Provider) -> Seq<char> {
    let own = "power:"@ + net;
    let other = rail_symbol(net);
    if p.found(own) is Some {
        own
    } else if other is Some && p.found(other->0) is Some {
        other->0
    } else if grammar::hangs_down(net) {
        "power:GND"@
    } else {
        "power:VCC"@
    }
}

/// The symbol of a rail: its own, that of an alias, else the plain one.
pub fn power_lib_id(net: &str, provider: &Provider) -> (r: String)
    ensures
        r@ == power_symbol(net@, *provider),
{
    let own = Line::of("power:").add(net).done();
    if provider.symbol(own.as_str()).is_some() {
        return own;
    }
    let alias: Option<&str> = if same(net, "3V3") {
        Some("power:+3V3")
    } else if same(net, "5V") {
        Some("power:+5V")
    } else if same(net, "12V") {
        Some("power:+12V")
    } else {
        None
    };
    if let Some(a) = alias {
        if provider.symbol(a).is_some() {
            return a.to_owned();
        }
    }
    if is_ground(net) {
        "power:GND".to_owned()
    } else {
        "power:VCC".to_owned()
    }
}

/// Where a component is put.
pub struct Placement {
    pub at: Pt,
    pub angle: i32,
    pub uuid: Option<String>,
    /// It stood somewhere else before.
    pub replaced: bool,
    pub rev: String,
}

#[verifier::ext_equal]
pub struct PlacementV {
    pub at: Pt,
    pub angle: i32,
    pub uuid: Option<Seq<char>>,
    pub replaced: bool,
    pub rev: Seq<char>,
}

impl Placement {
    pub open spec fn view(&self) -> PlacementV {
        PlacementV {
            at: self.at,
            angle: self.angle,
            uuid: tree::text_v(self.uuid),
            replaced: self.replaced,
            rev: self.rev@,
        }
    }
}

/// Whether an earlier placement still holds: no revision was recorded, or the same one.
pub open spec fn still_valid(p: PriorV, rev: Seq<char>) -> bool {
    p.layout_rev is None || p.layout_rev->0 == rev
}

pub open spec fn or_origin(p: Option<Pt>) -> Pt {
    match p {
        Some(q) => q,
        None => Pt { x: 0, y: 0 },
    }
}

/// Where a component is put: where it stood, if that still holds, else where the placer puts it.
pub open spec fn resolved(
    prior: Seq<(IdentityV, PriorV)>,
    auto: Layout,
    relayout: Relayout,
    block_name: Seq<char>,
    block: Block,
    refdes: Seq<char>,
    comp: Component,
) -> PlacementV {
    let rev = revision(block, comp, None);
    let was = earlier(prior, identity_of(refdes, comp.origin));
    if was is Some && !relayout.forced(block_name) && still_valid(was->0, rev) {
        PlacementV {
            at: emit::snap_of(was->0.at),
            angle: was->0.angle,
            uuid: was->0.uuid,
            replaced: false,
            rev,
        }
    } else {
        PlacementV {
            at: or_origin(order_map::look(named(auto.positions@), refdes)),
            angle: match order_map::look(named(auto.angles@), refdes) {
                Some(a) => a,
                None => first_angle(comp),
            },
            uuid: None,
            replaced: was is Some,
            rev,
        }
    }
}

/// A component that stood on the sheet under a revision that still holds, in a block that is not
/// to be placed anew, keeps its place on the grid, its orientation and its identifier.
pub proof fn valid_placements_survive(
    prior: Seq<(IdentityV, PriorV)>,
    auto: Layout,
    relayout: Relayout,
    block_name: Seq<char>,
    block: Block,
    refdes: Seq<char>,
    comp: Component,
    p: PriorV,
)
    requires
        earlier(prior, identity_of(refdes, comp.origin)) == Some(p),
        !relayout.forced(block_name),
        p.layout_rev is None || p.layout_rev->0 == revision(block, comp, None),
    ensures
        ({
            let r = resolved(prior, auto, relayout, block_name, block, refdes, comp);
            r.at == emit::snap_of(p.at) && r.angle == p.angle && r.uuid == p.uuid && !r.replaced
        }),
{
}

/// Placing everything anew does not depend on an earlier sheet but for the count of what moved.
pub proof fn full_relayout_forgets(
    a: Seq<(IdentityV, PriorV)>,
    b: Seq<(IdentityV, PriorV)>,
    auto: Layout,
    block_name: Seq<char>,
    block: Block,
    refdes: Seq<char>,
    comp: Component,
)
    ensures
        ({
            let r = resolved(a, auto, Relayout::All, block_name, block, refdes, comp);
            let s = resolved(b, auto, Relayout::All, block_name, block, refdes, comp);
            r.at == s.at && r.angle == s.angle && r.uuid == s.uuid && r.rev == s.rev
        }),
{
}

fn is_valid(p: &PriorPlacement, rev: &str) -> (r: bool)
    ensures
        r == still_valid(p@, rev@),
{
    match &p.layout_rev {
        Some(v) => same(v.as_str(), rev),
        None => true,
    }
}

fn position_of(v: &Vec<(String, Pt)>, k: &str) -> (r: Pt)
    ensures
        r == or_origin(order_map::look(named(v@), k@)),
{
    match find_named(v, k) {
        Some(p) => *p,
        None => Pt { x: 0, y: 0 },
    }
}

pub fn resolve_placement(
    prior: &PriorMap,
    auto: &Layout,
    relayout: &Relayout,
    block_name: &str,
    block: &Block,
    refdes: &str,
    comp: &Component,
) -> (r: Placement)
    ensures
        r@ == resolved(
            prior_v(prior@),
            *auto,
            *relayout,
            block_name@,
            *block,
            refdes@,
            *comp,
        ),
{
    let id = Identity::of(refdes, &comp.origin);
    let rev = layout_rev(block, comp, None);
    let was = find_prior(prior, &id);
    let mut replaced = false;
    if let Some(p) = was {
        if !relayout.forces(block_name) && is_valid(p, rev.as_str()) {
            return Placement {
                at: snap_point(p.at),
                angle: p.angle,
                uuid: dup_text(&p.uuid),
                replaced: false,
                rev,
            };
        }
        replaced = true;
    }
    let angle = match find_named(&auto.angles, refdes) {
        Some(a) => *a,
        None => initial_angle(comp),
    };
    Placement { at: position_of(&auto.positions, refdes), angle, uuid: None, replaced, rev }
}

// ---------------------------------------------------------------- counts by block
/// The first place whose name does not come before `k`.
pub open spec fn count_place(m: Seq<(Seq<char>, u64)>, k: Seq<char>, i: int) -> int
    decreases m.len() - i,
{
    if i < 0 || i >= m.len() || !text::before(m[i].0, k) {
        i
    } else {
        count_place(m, k, i + 1)
    }
}

/// The counts with `n` more for a name, as far as a count goes; names in ascending order.
pub open spec fn counted(m: Seq<(Seq<char>, u64)>, k: Seq<char>, n: nat) -> Seq<(Seq<char>, u64)> {
    let i = order_map::seek(m, k, 0);
    if i < m.len() {
        m.update(i, (k, crate::geom::lo(m[i].1 + n, u64::MAX as int) as u64))
    } else {
        m.insert(count_place(m, k, 0), (k, crate::geom::lo(n as int, u64::MAX as int) as u64))
    }
}

pub fn count_more(v: &mut Vec<(String, u64)>, k: &str, n: usize)
    ensures
        named(final(v)@) == counted(named(old(v)@), k@, n as nat),
{
    let ghost m = named(v@);
    let i = seek_name(v, k);
    if i < v.len() {
        let have = v[i].1;
        let now: u64 = if have > u64::MAX - n as u64 { u64::MAX } else { have + n as u64 };
        v.set(i, (k.to_owned(), now));
        assert(named(v@) =~= counted(m, k@, n as nat));
    } else {
        let mut j: usize = 0;
        while j < v.len() && is_before(v[j].0.as_str(), k)
            invariant
                j <= v@.len(),
                m == named(v@),
                count_place(m, k@, 0) == count_place(m, k@, j as int),
            decreases v@.len() - j,
        {
            assert(m[j as int].0 == v@[j as int].0@);
            j += 1;
        }
        if j < v.len() {
            assert(m[j as int].0 == v@[j as int].0@);
        }
        v.insert(j, (k.to_owned(), n as u64));
        assert(named(v@) =~= m.insert(j as int, (k@, n as u64)));
    }
}

// ---------------------------------------------------------------- origins of clusters
#[verifier::external_type_specification]
#[verifier::external_body]
#[verifier::reject_recursive_types(K)]
#[verifier::reject_recursive_types(V)]
#[verifier::reject_recursive_types(S)]
pub struct ExIndexMap<K, V, S>(IndexMap<K, V, S>);

/// The entries of an `indexmap::IndexMap` from keys to points, in the order they were first added.
pub uninterp spec fn origin_entries(m: IndexMap<String, (i64, i64)>) -> Seq<(Seq<char>, (i64, i64))>;

/// `indexmap::IndexMap::new`: a map without entries.
#[verifier::external_body]
pub(crate) fn new_origins() -> (m: IndexMap<String, (i64, i64)>)
    ensures
        origin_entries(m) == Seq::<(Seq<char>, (i64, i64))>::empty(),
{
    IndexMap::new()
}

/// `indexmap::IndexMap::insert`: the value of a key that is there is replaced where it stands, and
/// a new key goes to the end.
#[verifier::external_body]
pub(crate) fn add_origin(m: &mut IndexMap<String, (i64, i64)>, key: String, at: (i64, i64))
    ensures
        origin_entries(*final(m)) == order_map::put(origin_entries(*old(m)), key@, at),
{
    m.insert(key, at);
}

/// `indexmap::IndexMap::get`: the value of a key, if the key is there.
#[verifier::external_body]
pub(crate) fn get_origin(m: &IndexMap<String, (i64, i64)>, key: &str) -> (r: Option<(i64, i64)>)
    ensures
        r == order_map::look(origin_entries(*m), key@),
{
    m.get(key).copied()
}

pub type OriginsV = Seq<(Seq<char>, (i64, i64))>;

/// The origins found so far, and how much was placed anew.
#[verifier::ext_equal]
pub struct OriginState {
    pub origins: OriginsV,
    pub counts: Seq<(Seq<char>, u64)>,
}

pub open spec fn pair_of(p: Pt) -> (i64, i64) {
    (p.x, p.y)
}

pub open spec fn local_of(members: Seq<(String, MemberInfo)>, refdes: Seq<char>) -> Pt {
    match order_map::look(named(members), refdes) {
        Some(m) => m.local,
        None => Pt { x: 0, y: 0 },
    }
}

/// The state after one cluster: its first member anchors it. If that member's placement still
/// holds, the cluster follows it; else the placer decides, and every member counts as moved if the
/// first stood somewhere before.
pub open spec fn origin_step(
    s: OriginState,
    block_name: Seq<char>,
    block: Block,
    ci: int,
    cluster: Cluster,
    members: Seq<(String, MemberInfo)>,
    auto: Layout,
    prior: Seq<(IdentityV, PriorV)>,
    relayout: Relayout,
) -> OriginState {
    let key = key_of_cluster(block_name, ci as nat);
    let placed = or_origin(order_map::look(named(auto.cluster_origins@), key));
    let stay = OriginState {
        origins: order_map::put(s.origins, key, pair_of(emit::snap_of(placed))),
        ..s
    };
    if cluster.members@.len() == 0 {
        stay
    } else {
        let rep = cluster.members@[0]@;
        match order_map::look(named(block.components@), rep) {
            None => stay,
            Some(comp) => {
                let local = local_of(members, rep);
                match earlier(prior, identity_of(rep, comp.origin)) {
                    None => stay,
                    Some(p) => if !relayout.forced(block_name) && still_valid(
                        p,
                        revision(block, comp, Some(cluster)),
                    ) {
                        OriginState {
                            origins: order_map::put(
                                s.origins,
                                key,
                                pair_of(emit::snapped_pt(p.at.x - local.x, p.at.y - local.y)),
                            ),
                            ..s
                        }
                    } else {
                        OriginState {
                            counts: counted(s.counts, block_name, cluster.members@.len()),
                            ..stay
                        }
                    },
                }
            },
        }
    }
}

/// The state after the first `n` clusters of a block.
pub open spec fn origins_in(
    s: OriginState,
    block_name: Seq<char>,
    block: Block,
    clusters: Seq<Cluster>,
    members: Seq<(String, MemberInfo)>,
    auto: Layout,
    prior: Seq<(IdentityV, PriorV)>,
    relayout: Relayout,
    n: int,
) -> OriginState
    decreases n,
{
    if n <= 0 {
        s
    } else {
        origin_step(
            origins_in(s, block_name, block, clusters, members, auto, prior, relayout, n - 1),
            block_name,
            block,
            n - 1,
            clusters[n - 1],
            members,
            auto,
            prior,
            relayout,
        )
    }
}

/// The state after the first `n` blocks.
pub open spec fn origins_of(
    design: Design,
    gi: GrammarInputs,
    auto: Layout,
    prior: Seq<(IdentityV, PriorV)>,
    relayout: Relayout,
    n: int,
) -> OriginState
    decreases n,
{
    if n <= 0 {
        OriginState { origins: Seq::empty(), counts: Seq::empty() }
    } else {
        let s = origins_of(design, gi, auto, prior, relayout, n - 1);
        let g = gi.graphs@[n - 1];
        match order_map::look(named(design.blocks@), g.0@) {
            Some(b) => origins_in(
                s,
                g.0@,
                b,
                g.1.clusters@,
                gi.members@,
                auto,
                prior,
                relayout,
                g.1.clusters@.len() as int,
            ),
            None => s,
        }
    }
}

fn place_cluster(
    origins: &mut IndexMap<String, (i64, i64)>,
    counts: &mut Vec<(String, u64)>,
    block_name: &str,
    block: &Block,
    ci: usize,
    cluster: &Cluster,
    members: &Vec<(String, MemberInfo)>,
    auto: &Layout,
    prior: &PriorMap,
    relayout: &Relayout,
)
    ensures
        (OriginState { origins: origin_entries(*final(origins)), counts: named(final(counts)@) })
            == origin_step(
            (OriginState { origins: origin_entries(*old(origins)), counts: named(old(counts)@) }),
            block_name@,
            *block,
            ci as int,
            *cluster,
            members@,
            *auto,
            prior_v(prior@),
            *relayout,
        ),
{
    let key = cluster_key(block_name, ci);
    let placed = snap_point(position_of(&auto.cluster_origins, key.as_str()));
    let mut at = placed;
    if cluster.members.len() > 0 {
        let rep = cluster.members[0].as_str();
        if let Some(comp) = find_named(&block.components, rep) {
            let local = match find_named(members, rep) {
                Some(m) => m.local,
                None => Pt { x: 0, y: 0 },
            };
            if let Some(p) = find_prior(prior, &Identity::of(rep, &comp.origin)) {
                let rev = member_rev(block, comp, cluster);
                if !relayout.forces(block_name) && is_valid(p, rev.as_str()) {
                    at = snap_sum(
                        p.at.x as i128 - local.x as i128,
                        p.at.y as i128 - local.y as i128,
                    );
                } else {
                    count_more(counts, block_name, cluster.members.len());
                }
            }
        }
    }
    add_origin(origins, key, (at.x, at.y));
}

/// The origin of every cluster, and how many components of each block are placed anew by it.
pub fn resolve_cluster_origins(
    design: &Design,
    gi: &GrammarInputs,
    auto: &Layout,
    prior: &PriorMap,
    relayout: &Relayout,
    counts: &mut Vec<(String, u64)>,
) -> (r: IndexMap<String, (i64, i64)>)
    requires
        old(counts)@.len() == 0,
    ensures
        (OriginState { origins: origin_entries(r), counts: named(final(counts)@) }) == origins_of(
            *design,
            *gi,
            *auto,
            prior_v(prior@),
            *relayout,
            gi.graphs@.len() as int,
        ),
{
    let mut origins = new_origins();
    let ghost pv = prior_v(prior@);
    let mut i: usize = 0;
    assert(named(counts@) =~= Seq::empty());
    while i < gi.graphs.len()
        invariant
            i <= gi.graphs@.len(),
            pv == prior_v(prior@),
            (OriginState { origins: origin_entries(origins), counts: named(counts@) })
                == origins_of(*design, *gi, *auto, pv, *relayout, i as int),
        decreases gi.graphs@.len() - i,
    {
        let name = gi.graphs[i].0.as_str();
        let graph = &gi.graphs[i].1;
        if let Some(block) = find_named(&design.blocks, name) {
            let ghost s = OriginState {
                origins: origin_entries(origins),
                counts: named(counts@),
            };
            let mut c: usize = 0;
            while c < graph.clusters.len()
                invariant
                    c <= graph.clusters@.len(),
                    pv == prior_v(prior@),
                    (OriginState { origins: origin_entries(origins), counts: named(counts@) })
                        == origins_in(
                        s,
                        name@,
                        *block,
                        graph.clusters@,
                        gi.members@,
                        *auto,
                        pv,
                        *relayout,
                        c as int,
                    ),
                decreases graph.clusters@.len() - c,
            {
                place_cluster(
                    &mut origins,
                    counts,
                    name,
                    block,
                    c,
                    &graph.clusters[c],
                    &gi.members,
                    auto,
                    prior,
                    relayout,
                );
                c += 1;
            }
        }
        i += 1;
    }
    origins
}

} // verus!
