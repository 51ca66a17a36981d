//! Circuits as a design lists them: power symbols listed as parts are sorted out, and the parts are
//! assigned to the blocks of the layout.
use crate::engine;
use crate::engine::{PartInst, PartSpec};
use crate::geo;
use crate::geo::Session;
use crate::group;
use crate::lint;
use crate::lint::{find_meant, lint_layout, rows_of_four, Block, BlockV};
use crate::names::has_name;
use crate::symlib::SymbolIndex;
use crate::text;
use crate::text::{contains, join, quote_all, same, starts_with, Line};
use crate::tree;
use crate::tree::{key_tree, tree_ids, Tree, TreeV, DEFAULT_GAP};
use vstd::prelude::*;

verus! {

/// A netlist with the layout of its blocks.
#[derive(Debug)]
pub struct Circuit {
    pub parts: Vec<PartSpec>,
    /// Extra rail names.
    pub power: Vec<String>,
    /// Nets that want a PWR_FLAG.
    pub flags: Vec<String>,
    pub layout: Vec<Block>,
    pub notes: Vec<String>,
}

// ---------------------------------------------------------------- power symbols among the parts
pub open spec fn lib_of(p: PartSpec) -> Seq<char> {
    match p.lib {
        Some(l) => l@,
        None => ""@,
    }
}

pub open spec fn id_of(p: PartSpec) -> Seq<char> {
    match p.id {
        Some(l) => l@,
        None => ""@,
    }
}

/// Whether a listed part is a power symbol.
pub open spec fn power_symbol(p: PartSpec, index: SymbolIndex) -> bool {
    ||| match index.found(lib_of(p)) {
        Some(i) => i.power,
        None => false,
    }
    ||| text::starts(lib_of(p), "power:"@)
}

/// The nets of the first `n` listed pins.
pub open spec fn listed_nets(p: PartSpec, n: int) -> Seq<Seq<char>>
    decreases n,
{
    if n <= 0 {
        Seq::empty()
    } else {
        let rest = listed_nets(p, n - 1);
        match p.pins@[n - 1].1 {
            Some(net) => if net@ != "nc"@ && net@ != "float"@ {
                rest.push(net@)
            } else {
                rest
            },
            None => rest,
        }
    }
}

/// A list of names with the first `n` of another added where they are new.
pub open spec fn with_new(v: Seq<Seq<char>>, more: Seq<Seq<char>>, n: int) -> Seq<Seq<char>>
    decreases n,
{
    if n <= 0 {
        v
    } else {
        let rest = with_new(v, more, n - 1);
        if rest.contains(more[n - 1]) {
            rest
        } else {
            rest.push(more[n - 1])
        }
    }
}

/// A tree without the leaves of a part.
pub open spec fn without(t: TreeV, id: Seq<char>) -> TreeV
    decreases t, 0nat,
{
    TreeV {
        row: without_in(t.row, id, t.row.len()),
        col: without_in(t.col, id, t.col.len()),
        ..t
    }
}

pub open spec fn without_in(v: Seq<TreeV>, id: Seq<char>, n: nat) -> Seq<TreeV>
    decreases v, n,
{
    if n == 0 || n > v.len() {
        Seq::empty()
    } else {
        let rest = without_in(v, id, (n - 1) as nat);
        if (match v[n - 1].style.part {
            Some(p) => p,
            None => ""@,
        }) == id {
            rest
        } else {
            rest.push(without(v[n - 1], id))
        }
    }
}

pub fn prune_tree(t: &Tree, id: &str) -> (r: Tree)
    ensures
        r@ == without(t@, id@),
    decreases t, 0nat,
{
    proof {
        tree::lemma_tree_view(*t);
        assert(decreases_to!(t => t.row));
        assert(decreases_to!(t => t.col));
    }
    let r = Tree {
        style: t.style.dup(),
        is_row: t.is_row,
        row: prune_in(&t.row, id),
        is_col: t.is_col,
        col: prune_in(&t.col, id),
    };
    proof {
        tree::lemma_tree_view(r);
    }
    assert(r@ =~= without(t@, id@));
    r
}

fn prune_in(v: &Vec<Tree>, id: &str) -> (r: Vec<Tree>)
    ensures
        tree::trees_v(r@) == without_in(tree::trees_v(v@), id@, v@.len()),
    decreases v, 1nat,
{
    let ghost tv = tree::trees_v(v@);
    let mut r: Vec<Tree> = Vec::new();
    let mut i: usize = 0;
    assert(tree::trees_v(r@) =~= without_in(tv, id@, 0));
    while i < v.len()
        invariant
            i <= v@.len(),
            tv == tree::trees_v(v@),
            tree::trees_v(r@) == without_in(tv, id@, i as nat),
        decreases v@.len() - i,
    {
        assert(tv[i as int] == v@[i as int]@);
        assert(decreases_to!(v => v@[i as int]));
        let own = match &v[i].style.part {
            Some(p) => p.as_str(),
            None => "",
        };
        if !same(own, id) {
            let c = prune_tree(&v[i], id);
            let ghost r0 = tree::trees_v(r@);
            let ghost cv = c@;
            r.push(c);
            assert(tree::trees_v(r@) =~= r0.push(cv));
        }
        i += 1;
    }
    r
}

pub open spec fn pruned_blocks(v: Seq<BlockV>, id: Seq<char>) -> Seq<BlockV> {
    Seq::new(v.len(), |i: int| lint::with_tree(v[i], without(v[i].tree, id)))
}

fn prune_blocks(v: &Vec<Block>, id: &str) -> (r: Vec<Block>)
    ensures
        lint::blocks_v(r@) == pruned_blocks(lint::blocks_v(v@), id@),
{
    let ghost want = pruned_blocks(lint::blocks_v(v@), id@);
    let mut r: Vec<Block> = Vec::new();
    let mut i: usize = 0;
    while i < v.len()
        invariant
            i <= v@.len(),
            want == pruned_blocks(lint::blocks_v(v@), id@),
            r@.len() == i,
            forall|k: int| 0 <= k < i ==> (#[trigger] r@[k])@ == want[k],
        decreases v@.len() - i,
    {
        let mut b = v[i].dup();
        b.tree = prune_tree(&v[i].tree, id);
        assert(lint::blocks_v(v@)[i as int] == v@[i as int]@);
        assert(b@ =~= want[i as int]);
        r.push(b);
        i += 1;
    }
    assert(lint::blocks_v(r@) =~= want);
    r
}

/// What sorting out the power symbols leaves of a circuit.
#[verifier::ext_equal]
pub struct StripV {
    pub parts: Seq<PartSpec>,
    pub flags: Seq<Seq<char>>,
    pub layout: Seq<BlockV>,
    pub notes: Seq<Seq<char>>,
}

pub open spec fn is_flag_part(p: PartSpec) -> bool {
    text::has(lib_of(p), "PWR_FLAG"@) && listed_nets(p, p.pins@.len() as int).len() > 0
}

pub open spec fn strip_note(p: PartSpec) -> Seq<char> {
    let nets = listed_nets(p, p.pins@.len() as int);
    if is_flag_part(p) {
        "note: "@ + id_of(p) + " (PWR_FLAG) is not a part - moved to flags: ["@ + text::joined(
            text::quoted(nets, "'"@, "'"@),
            ", "@,
        ) + "]"@
    } else {
        "note: "@ + id_of(p) + " ("@ + lib_of(p)
            + ") is a power symbol, not a part - dropped (nets get power symbols automatically)"@
    }
}

/// The first `n` parts sorted: power symbols leave, and flag symbols become flags.
pub open spec fn stripped(
    ps: Seq<PartSpec>,
    flags: Seq<Seq<char>>,
    layout: Seq<BlockV>,
    index: SymbolIndex,
    n: int,
) -> StripV
    decreases n,
{
    if n <= 0 {
        StripV { parts: Seq::empty(), flags, layout, notes: Seq::empty() }
    } else {
        let b = stripped(ps, flags, layout, index, n - 1);
        let p = ps[n - 1];
        if !power_symbol(p, index) {
            StripV { parts: b.parts.push(p), ..b }
        } else {
            let nets = listed_nets(p, p.pins@.len() as int);
            StripV {
                parts: b.parts,
                flags: if is_flag_part(p) {
                    with_new(b.flags, nets, nets.len() as int)
                } else {
                    b.flags
                },
                layout: pruned_blocks(b.layout, id_of(p)),
                notes: b.notes.push(strip_note(p)),
            }
        }
    }
}

pub open spec fn strip_v(c: Circuit, index: SymbolIndex) -> StripV {
    stripped(
        c.parts@,
        text::views(c.flags@),
        lint::blocks_v(c.layout@),
        index,
        c.parts@.len() as int,
    )
}

fn list_nets(p: &PartSpec) -> (r: Vec<String>)
    ensures
        text::views(r@) == listed_nets(*p, p.pins@.len() as int),
{
    let mut r: Vec<String> = Vec::new();
    let mut i: usize = 0;
    assert(text::views(r@) =~= listed_nets(*p, 0));
    while i < p.pins.len()
        invariant
            i <= p.pins@.len(),
            text::views(r@) == listed_nets(*p, i as int),
        decreases p.pins@.len() - i,
    {
        let ghost r0 = text::views(r@);
        match &p.pins[i].1 {
            Some(net) => {
                if !same(net.as_str(), "nc") && !same(net.as_str(), "float") {
                    r.push(net.clone());
                    assert(text::views(r@) =~= r0.push(net@));
                }
            },
            None => {},
        }
        i += 1;
    }
    r
}

fn add_new(v: &mut Vec<String>, more: &Vec<String>)
    ensures
        text::views(final(v)@) == with_new(
            text::views(old(v)@),
            text::views(more@),
            more@.len() as int,
        ),
{
    let ghost v0 = text::views(v@);
    let ghost ms = text::views(more@);
    let mut i: usize = 0;
    while i < more.len()
        invariant
            i <= more@.len(),
            ms == text::views(more@),
            text::views(v@) == with_new(v0, ms, i as int),
        decreases more@.len() - i,
    {
        assert(ms[i as int] == more@[i as int]@);
        let ghost b = text::views(v@);
        if !has_name(v, more[i].as_str()) {
            v.push(more[i].clone());
            assert(text::views(v@) =~= b.push(ms[i as int]));
        }
        i += 1;
    }
}

fn text_or_none<'a>(t: &'a Option<String>) -> (r: &'a str)
    ensures
        r@ == (match *t {
            Some(s) => s@,
            None => ""@,
        }),
{
    match t {
        Some(s) => s.as_str(),
        None => "",
    }
}

fn is_power_symbol(p: &PartSpec, index: &SymbolIndex) -> (r: bool)
    ensures
        r == power_symbol(*p, *index),
{
    let lib = text_or_none(&p.lib);
    let known = match index.get(lib) {
        Some(i) => i.power,
        None => false,
    };
    known || starts_with(lib, "power:")
}

/// Converts power symbols listed as parts: a PWR_FLAG becomes a flag, any other is dropped, its net
/// being drawn with power symbols anyway. Returns what there is to say.
pub fn strip_power_parts(c: &mut Circuit, index: &SymbolIndex) -> (r: Vec<String>)
    ensures
        ({
            let s = strip_v(*old(c), *index);
            &&& final(c).parts@ == s.parts
            &&& text::views(final(c).flags@) == s.flags
            &&& lint::blocks_v(final(c).layout@) == s.layout
            &&& text::views(r@) == s.notes
            &&& final(c).power@ == old(c).power@
            &&& final(c).notes@ == old(c).notes@
        }),
{
    let ghost ps = c.parts@;
    let ghost f0 = text::views(c.flags@);
    let ghost l0 = lint::blocks_v(c.layout@);
    let mut notes: Vec<String> = Vec::new();
    let n = c.parts.len();
    let mut i: usize = 0;
    let mut k: usize = 0;
    assert(text::views(notes@) =~= Seq::empty());
    assert(ps =~= Seq::<PartSpec>::empty() + ps.skip(0));
    while k < n
        invariant
            k <= n,
            n == ps.len(),
            i <= k,
            i == stripped(ps, f0, l0, *index, k as int).parts.len(),
            c.parts@ == stripped(ps, f0, l0, *index, k as int).parts + ps.skip(k as int),
            text::views(c.flags@) == stripped(ps, f0, l0, *index, k as int).flags,
            lint::blocks_v(c.layout@) == stripped(ps, f0, l0, *index, k as int).layout,
            text::views(notes@) == stripped(ps, f0, l0, *index, k as int).notes,
            c.power@ == old(c).power@,
            c.notes@ == old(c).notes@,
        decreases n - k,
    {
        let ghost b = stripped(ps, f0, l0, *index, k as int);
        assert(c.parts@[i as int] == ps[k as int]);
        assert(ps.skip(k as int)[0] == ps[k as int]);
        if !is_power_symbol(&c.parts[i], index) {
            assert(c.parts@ =~= b.parts.push(ps[k as int]) + ps.skip(k + 1));
            i += 1;
        } else {
            let ghost before = c.parts@;
            let p = c.parts.remove(i);
            assert(c.parts@ =~= b.parts + ps.skip(k + 1));
            let lib = text_or_none(&p.lib);
            let id = text_or_none(&p.id);
            let nets = list_nets(&p);
            assert(text::views(nets@).len() == nets@.len());
            let note = if contains(lib, "PWR_FLAG") && nets.len() > 0 {
                add_new(&mut c.flags, &nets);
                let q = quote_all(&nets, "'", "'");
                let j = join(&q, ", ");
                Line::of("note: ").add(id).add(" (PWR_FLAG) is not a part - moved to flags: [").add(
                    j.as_str(),
                ).add("]").done()
            } else {
                Line::of("note: ").add(id).add(" (").add(lib).add(
                    ") is a power symbol, not a part - dropped (nets get power symbols automatically)",
                ).done()
            };
            assert(note@ == strip_note(p));
            let ghost n0 = text::views(notes@);
            let ghost nv = note@;
            notes.push(note);
            assert(text::views(notes@) =~= n0.push(nv));
            let l = prune_blocks(&c.layout, id);
            c.layout = l;
        }
        k += 1;
    }
    assert(ps.skip(n as int) =~= Seq::empty());
    assert(c.parts@ =~= stripped(ps, f0, l0, *index, n as int).parts);
    notes
}

// ---------------------------------------------------------------- instances
/// The key of a unit: the id of a first unit, the id with the unit for any other.
pub open spec fn full_key(id: Seq<char>, unit: int) -> Seq<char> {
    if unit == 1 {
        id
    } else {
        id + "#"@ + text::numeral(unit)
    }
}

/// The instance of a listed part before it has its key.
pub open spec fn plain_instance(pj: PartSpec, s: Session, index: SymbolIndex, q: PartInst) -> bool {
    engine::part_error(pj, s, index) is None && engine::describes(
        pj,
        *geo::info_spec(s, index, pj.lib->0@)->0,
        q,
    )
}

/// Whether a part is the instance of a listed part.
pub open spec fn instance(pj: PartSpec, s: Session, index: SymbolIndex, p: PartInst) -> bool {
    exists|q: PartInst| #[trigger]
        plain_instance(pj, s, index, q) && p == (PartInst { key: p.key, ..q }) && p.key@ == full_key(
            q.id@,
            q.unit as int,
        )
}

pub open spec fn instances(ps: Seq<PartSpec>, s: Session, index: SymbolIndex, parts: Seq<PartInst>) -> bool {
    &&& parts.len() == ps.len()
    &&& forall|i: int| 0 <= i < ps.len() ==> instance(ps[i], s, index, #[trigger] parts[i])
}

/// A part of a size that can be drawn.
pub open spec fn part_fits(p: PartInst) -> bool {
    &&& p.wf()
    &&& crate::drawing::drawable(p)
    &&& p.pins@.len() <= 0x1000
}

/// A listed part of a size that can be drawn, with every symbol it could name.
pub open spec fn listing_fits(pj: PartSpec, s: Session, index: SymbolIndex) -> bool {
    &&& forall|i: int| 0 <= i < pj.pins@.len() ==> (#[trigger] pj.pins@[i]).0@.len()
        <= crate::symlib::TEXT_MAX
    &&& forall|k: Seq<char>|
        (#[trigger] geo::info_spec(s, index, k)) is Some ==> engine::short_texts(
            engine::pin_names(
                engine::visible(geo::info_spec(s, index, k)->0.unit_spec(pj.unit as int).pins@),
            ),
        )
    &&& forall|q: PartInst| #[trigger] plain_instance(pj, s, index, q) && q.info.wf() ==> part_fits(q)
}

/// Circuits of a size that can be drawn.
pub open spec fn listings_fit(ps: Seq<PartSpec>, s: Session, index: SymbolIndex) -> bool {
    &&& geo::library_ok(s, index)
    &&& ps.len() <= 0x100_0000
    &&& forall|i: int| 0 <= i < ps.len() ==> listing_fits(#[trigger] ps[i], s, index)
}

pub(crate) fn make_instance(pj: &PartSpec, s: &Session, index: &SymbolIndex) -> (r: Result<
    PartInst,
    geo::LayoutError,
>)
    requires
        geo::library_ok(*s, *index),
        listing_fits(*pj, *s, *index),
    ensures
        match r {
            Ok(p) => instance(*pj, *s, *index, p) && part_fits(p) && engine::part_error(
                *pj,
                *s,
                *index,
            ) is None,
            Err(e) => engine::part_error(*pj, *s, *index) == Some(e.0@),
        },
{
    match PartInst::new(pj, s, index) {
        Ok(p) => {
            let ghost q = p;
            assert(plain_instance(*pj, *s, *index, q));
            assert(part_fits(q));
            let mut p = p;
            let key = if p.unit == 1 {
                p.id.clone()
            } else {
                Line::of(p.id.as_str()).add("#").whole(p.unit as i64).done()
            };
            p.key = key;
            assert(p == (PartInst { key: p.key, ..q }));
            Ok(p)
        },
        Err(e) => Err(e),
    }
}

/// The first complaint about the listed parts from `i` on.
pub open spec fn first_error(ps: Seq<PartSpec>, s: Session, index: SymbolIndex, i: int) -> Option<
    Seq<char>,
>
    decreases ps.len() - i,
{
    if i < 0 || i >= ps.len() {
        None
    } else {
        match engine::part_error(ps[i], s, index) {
            Some(e) => Some(e),
            None => first_error(ps, s, index, i + 1),
        }
    }
}

pub open spec fn all_fit(parts: Seq<PartInst>) -> bool {
    forall|i: int| 0 <= i < parts.len() ==> part_fits(#[trigger] parts[i])
}

pub(crate) fn make_instances(ps: &Vec<PartSpec>, s: &Session, index: &SymbolIndex) -> (r: Result<
    Vec<PartInst>,
    geo::LayoutError,
>)
    requires
        listings_fit(ps@, *s, *index),
    ensures
        match r {
            Ok(v) => first_error(ps@, *s, *index, 0) is None && instances(ps@, *s, *index, v@)
                && all_fit(v@),
            Err(e) => first_error(ps@, *s, *index, 0) == Some(e.0@),
        },
{
    let mut v: Vec<PartInst> = Vec::new();
    let mut i: usize = 0;
    while i < ps.len()
        invariant
            i <= ps@.len(),
            listings_fit(ps@, *s, *index),
            v@.len() == i,
            forall|k: int| 0 <= k < i ==> instance(ps@[k], *s, *index, #[trigger] v@[k]),
            all_fit(v@),
            first_error(ps@, *s, *index, 0) == first_error(ps@, *s, *index, i as int),
        decreases ps@.len() - i,
    {
        match make_instance(&ps[i], s, index) {
            Ok(p) => {
                v.push(p);
            },
            Err(e) => return Err(e),
        }
        i += 1;
    }
    Ok(v)
}

// ---------------------------------------------------------------- blocks
/// A block with the positions of its parts.
#[derive(Debug)]
pub struct Plan {
    pub block: Block,
    pub members: Vec<usize>,
}

#[verifier::ext_equal]
pub struct PlanV {
    pub block: BlockV,
    pub members: Seq<usize>,
}

impl Plan {
    pub open spec fn view(&self) -> PlanV {
        PlanV { block: self.block@, members: self.members@ }
    }
}

pub open spec fn plans_v(v: Seq<Plan>) -> Seq<PlanV> {
    Seq::new(v.len(), |i: int| v[i]@)
}

pub open spec fn keyed_block(b: BlockV) -> BlockV {
    lint::with_tree(b, tree::keyed(b.tree))
}

pub open spec fn keyed_blocks(v: Seq<BlockV>) -> Seq<BlockV> {
    Seq::new(v.len(), |i: int| keyed_block(v[i]))
}

fn key_block(b: &Block) -> (r: Block)
    ensures
        r@ == keyed_block(b@),
{
    let mut r = b.dup();
    r.tree = key_tree(&b.tree);
    assert(r@ =~= keyed_block(b@));
    r
}

/// Keys gone through so far.
#[verifier::ext_equal]
pub struct RollV {
    pub used: Seq<Seq<char>>,
    pub errors: Seq<Seq<char>>,
    pub members: Seq<usize>,
}

pub open spec fn unknown_note(title: Seq<char>, id: Seq<char>) -> Seq<char> {
    "layout block '"@ + title + "': unknown part '"@ + id + "'"@
}

pub open spec fn twice_note(title: Seq<char>, id: Seq<char>) -> Seq<char> {
    "layout block '"@ + title + "': part '"@ + id + "' appears twice"@
}

/// The first `n` keys of a block gone through: unknown and repeated ones are refused.
pub open spec fn called(
    parts: Seq<PartInst>,
    title: Seq<char>,
    ids: Seq<Seq<char>>,
    st: RollV,
    n: int,
) -> RollV
    decreases n,
{
    if n <= 0 {
        st
    } else {
        let b = called(parts, title, ids, st, n - 1);
        let id = ids[n - 1];
        match lint::meant(parts, id) {
            None => RollV { errors: b.errors.push(unknown_note(title, id)), ..b },
            Some(i) => if b.used.contains(id) {
                RollV { errors: b.errors.push(twice_note(title, id)), ..b }
            } else {
                RollV { used: b.used.push(id), members: b.members.push(i), ..b }
            },
        }
    }
}

/// Blocks gone through so far.
#[verifier::ext_equal]
pub struct CollectV {
    pub used: Seq<Seq<char>>,
    pub errors: Seq<Seq<char>>,
    pub plans: Seq<PlanV>,
}

pub open spec fn with_plan(v: Seq<PlanV>, b: BlockV, members: Seq<usize>) -> Seq<PlanV> {
    if members.len() > 0 {
        v.push(PlanV { block: b, members })
    } else {
        v
    }
}

/// The first `n` blocks with the parts that their trees name.
pub open spec fn collected(
    parts: Seq<PartInst>,
    v: Seq<BlockV>,
    errors: Seq<Seq<char>>,
    n: int,
) -> CollectV
    decreases n,
{
    if n <= 0 {
        CollectV { used: Seq::empty(), errors, plans: Seq::empty() }
    } else {
        let b = collected(parts, v, errors, n - 1);
        let k = keyed_block(v[n - 1]);
        let ids = tree::ids_of(k.tree);
        let r = called(
            parts,
            k.title,
            ids,
            RollV { used: b.used, errors: b.errors, members: Seq::empty() },
            ids.len() as int,
        );
        CollectV { used: r.used, errors: r.errors, plans: with_plan(b.plans, k, r.members) }
    }
}

/// The parts of the first `n` keys that no block before has.
pub open spec fn fresh_members(
    parts: Seq<PartInst>,
    ids: Seq<Seq<char>>,
    used: Seq<Seq<char>>,
    n: int,
) -> Seq<usize>
    decreases n,
{
    if n <= 0 {
        Seq::empty()
    } else {
        let rest = fresh_members(parts, ids, used, n - 1);
        match lint::meant(parts, ids[n - 1]) {
            Some(i) => if used.contains(ids[n - 1]) {
                rest
            } else {
                rest.push(i)
            },
            None => rest,
        }
    }
}

pub open spec fn known_keys(parts: Seq<PartInst>, ids: Seq<Seq<char>>, n: int) -> Seq<Seq<char>>
    decreases n,
{
    if n <= 0 {
        Seq::empty()
    } else {
        let rest = known_keys(parts, ids, n - 1);
        if lint::meant(parts, ids[n - 1]) is Some {
            rest.push(ids[n - 1])
        } else {
            rest
        }
    }
}

/// The first `n` blocks of a repaired layout with their parts.
pub open spec fn recollected(parts: Seq<PartInst>, v: Seq<BlockV>, n: int) -> CollectV
    decreases n,
{
    if n <= 0 {
        CollectV { used: Seq::empty(), errors: Seq::empty(), plans: Seq::empty() }
    } else {
        let b = recollected(parts, v, n - 1);
        let k = keyed_block(v[n - 1]);
        let ids = tree::ids_of(k.tree);
        CollectV {
            used: b.used + known_keys(parts, ids, ids.len() as int),
            errors: Seq::empty(),
            plans: with_plan(
                b.plans,
                k,
                fresh_members(parts, ids, b.used, ids.len() as int),
            ),
        }
    }
}

pub open spec fn members_ok(v: Seq<PlanV>, n: int) -> bool {
    forall|i: int, j: int|
        0 <= i < v.len() && 0 <= j < v[i].members.len() ==> #[trigger] v[i].members[j] < n
}

struct Collect {
    used: Vec<String>,
    errors: Vec<String>,
    plans: Vec<Plan>,
}

fn call_ids(
    parts: &Vec<PartInst>,
    title: &str,
    ids: &Vec<String>,
    used: &mut Vec<String>,
    errors: &mut Vec<String>,
) -> (r: Vec<usize>)
    ensures
        (RollV {
            used: text::views(final(used)@),
            errors: text::views(final(errors)@),
            members: r@,
        }) == called(
            parts@,
            title@,
            text::views(ids@),
            RollV {
                used: text::views(old(used)@),
                errors: text::views(old(errors)@),
                members: Seq::empty(),
            },
            ids@.len() as int,
        ),
        forall|k: int| 0 <= k < r@.len() ==> #[trigger] r@[k] < parts@.len(),
{
    let ghost st = RollV {
        used: text::views(used@),
        errors: text::views(errors@),
        members: Seq::empty(),
    };
    let ghost ks = text::views(ids@);
    let mut members: Vec<usize> = Vec::new();
    let mut i: usize = 0;
    while i < ids.len()
        invariant
            i <= ids@.len(),
            ks == text::views(ids@),
            (RollV { used: text::views(used@), errors: text::views(errors@), members: members@ })
                =~= called(parts@, title@, ks, st, i as int),
            forall|k: int| 0 <= k < members@.len() ==> #[trigger] members@[k] < parts@.len(),
        decreases ids@.len() - i,
    {
        assert(ks[i as int] == ids@[i as int]@);
        let ghost u0 = text::views(used@);
        let ghost e0 = text::views(errors@);
        match find_meant(parts, ids[i].as_str()) {
            None => {
                errors.push(
                    Line::of("layout block '").add(title).add("': unknown part '").add(
                        ids[i].as_str(),
                    ).add("'").done(),
                );
                assert(text::views(errors@) =~= e0.push(unknown_note(title@, ks[i as int])));
            },
            Some(j) => {
                if has_name(used, ids[i].as_str()) {
                    errors.push(
                        Line::of("layout block '").add(title).add("': part '").add(
                            ids[i].as_str(),
                        ).add("' appears twice").done(),
                    );
                    assert(text::views(errors@) =~= e0.push(twice_note(title@, ks[i as int])));
                } else {
                    members.push(j);
                    used.push(ids[i].clone());
                    assert(text::views(used@) =~= u0.push(ks[i as int]));
                }
            },
        }
        i += 1;
    }
    members
}

fn collect_blocks(parts: &Vec<PartInst>, v: &Vec<Block>, errors: Vec<String>) -> (r: Collect)
    ensures
        (CollectV {
            used: text::views(r.used@),
            errors: text::views(r.errors@),
            plans: plans_v(r.plans@),
        }) == collected(parts@, lint::blocks_v(v@), text::views(errors@), v@.len() as int),
        members_ok(plans_v(r.plans@), parts@.len() as int),
{
    let ghost bv = lint::blocks_v(v@);
    let ghost e0 = text::views(errors@);
    let mut errors = errors;
    let mut used: Vec<String> = Vec::new();
    let mut plans: Vec<Plan> = Vec::new();
    let mut i: usize = 0;
    assert(text::views(used@) =~= Seq::empty());
    assert(plans_v(plans@) =~= Seq::empty());
    while i < v.len()
        invariant
            i <= v@.len(),
            bv == lint::blocks_v(v@),
            (CollectV {
                used: text::views(used@),
                errors: text::views(errors@),
                plans: plans_v(plans@),
            }) == collected(parts@, bv, e0, i as int),
            members_ok(plans_v(plans@), parts@.len() as int),
        decreases v@.len() - i,
    {
        assert(bv[i as int] == v@[i as int]@);
        let b = key_block(&v[i]);
        let ids = tree_ids(&b.tree);
        assert(text::views(ids@).len() == ids@.len());
        let members = call_ids(parts, b.title.as_str(), &ids, &mut used, &mut errors);
        if members.len() > 0 {
            let ghost p0 = plans_v(plans@);
            let p = Plan { block: b, members };
            let ghost pv = p@;
            plans.push(p);
            assert(plans_v(plans@) =~= p0.push(pv));
        }
        i += 1;
    }
    Collect { used, errors, plans }
}

fn recollect_blocks(parts: &Vec<PartInst>, v: &Vec<Block>) -> (r: Collect)
    ensures
        (CollectV {
            used: text::views(r.used@),
            errors: Seq::empty(),
            plans: plans_v(r.plans@),
        }) == recollected(parts@, lint::blocks_v(v@), v@.len() as int),
        members_ok(plans_v(r.plans@), parts@.len() as int),
{
    let ghost bv = lint::blocks_v(v@);
    let mut used: Vec<String> = Vec::new();
    let mut plans: Vec<Plan> = Vec::new();
    let mut i: usize = 0;
    assert(text::views(used@) =~= Seq::empty());
    assert(plans_v(plans@) =~= Seq::empty());
    while i < v.len()
        invariant
            i <= v@.len(),
            bv == lint::blocks_v(v@),
            (CollectV {
                used: text::views(used@),
                errors: Seq::empty(),
                plans: plans_v(plans@),
            }) == recollected(parts@, bv, i as int),
            members_ok(plans_v(plans@), parts@.len() as int),
        decreases v@.len() - i,
    {
        assert(bv[i as int] == v@[i as int]@);
        let b = key_block(&v[i]);
        let ids = tree_ids(&b.tree);
        let ghost ks = text::views(ids@);
        let ghost u0 = text::views(used@);
        assert(ks.len() == ids@.len());
        let mut members: Vec<usize> = Vec::new();
        let mut known: Vec<String> = Vec::new();
        let mut j: usize = 0;
        assert(text::views(known@) =~= Seq::empty());
        while j < ids.len()
            invariant
                j <= ids@.len(),
                ks == text::views(ids@),
                u0 == text::views(used@),
                members@ == fresh_members(parts@, ks, u0, j as int),
                text::views(known@) == known_keys(parts@, ks, j as int),
                forall|k: int| 0 <= k < members@.len() ==> #[trigger] members@[k] < parts@.len(),
            decreases ids@.len() - j,
        {
            assert(ks[j as int] == ids@[j as int]@);
            let ghost k0 = text::views(known@);
            match find_meant(parts, ids[j].as_str()) {
                Some(m) => {
                    if !has_name(&used, ids[j].as_str()) {
                        members.push(m);
                    }
                    known.push(ids[j].clone());
                    assert(text::views(known@) =~= k0.push(ks[j as int]));
                },
                None => {},
            }
            j += 1;
        }
        let ghost kn = known@;
        let ghost us = used@;
        used.append(&mut known);
        assert(used@ =~= us + kn);
        assert(text::views(used@) =~= u0 + text::views(kn));
        if members.len() > 0 {
            let ghost p0 = plans_v(plans@);
            let p = Plan { block: b, members };
            let ghost pv = p@;
            plans.push(p);
            assert(plans_v(plans@) =~= p0.push(pv));
        }
        i += 1;
    }
    Collect { used, errors: Vec::new(), plans }
}

/// The parts among the first `n` whose keys no tree names.
pub open spec fn left_over(parts: Seq<PartInst>, used: Seq<Seq<char>>, n: int) -> Seq<usize>
    decreases n,
{
    if n <= 0 {
        Seq::empty()
    } else {
        let rest = left_over(parts, used, n - 1);
        if used.contains(parts[n - 1].key@) {
            rest
        } else {
            rest.push((n - 1) as usize)
        }
    }
}

pub open spec fn leaves_of(parts: Seq<PartInst>, v: Seq<usize>) -> Seq<TreeV> {
    Seq::new(v.len(), |i: int| TreeV::leaf(parts[v[i] as int].key@))
}

pub open spec fn ids_listed(parts: Seq<PartInst>, v: Seq<usize>) -> Seq<Seq<char>> {
    Seq::new(v.len(), |i: int| parts[v[i] as int].id@)
}

/// A block of the parts that no tree names: rows of four.
pub open spec fn misc_block(parts: Seq<PartInst>, v: Seq<usize>) -> BlockV {
    let rows = lint::fours(leaves_of(parts, v), DEFAULT_GAP as int, "center"@);
    BlockV {
        title: "MISC"@,
        note: None,
        has_tree: true,
        tree: if rows.len() > 1 {
            TreeV::col_of(rows, DEFAULT_GAP as int, "center"@)
        } else {
            rows[0]
        },
    }
}

pub open spec fn misc_note(parts: Seq<PartInst>, v: Seq<usize>) -> Seq<char> {
    "note: parts not mentioned in any layout tree were put in a MISC block: "@ + text::joined(
        ids_listed(parts, v),
        ", "@,
    )
}

#[verifier::ext_equal]
pub struct PlannedV {
    pub plans: Seq<PlanV>,
    pub errors: Seq<Seq<char>>,
}

/// The blocks of a circuit with their parts, and what there is to say about the layout.
pub open spec fn planned(
    parts: Seq<PartInst>,
    power: Seq<Seq<char>>,
    index: SymbolIndex,
    layout: Seq<BlockV>,
    notes: Seq<Seq<char>>,
) -> PlannedV {
    let a = collected(parts, layout, notes, layout.len() as int);
    let l = lint::linted(parts, power, index, keyed_blocks(layout));
    let b = if l.notes.len() > 0 {
        recollected(parts, l.v, l.v.len() as int)
    } else {
        a
    };
    let errors = a.errors + l.notes;
    let rest = left_over(parts, b.used, parts.len() as int);
    if rest.len() > 0 {
        PlannedV {
            plans: b.plans.push(PlanV { block: misc_block(parts, rest), members: rest }),
            errors: errors.push(misc_note(parts, rest)),
        }
    } else {
        PlannedV { plans: b.plans, errors }
    }
}

fn find_left_over(parts: &Vec<PartInst>, used: &Vec<String>) -> (r: Vec<usize>)
    ensures
        r@ == left_over(parts@, text::views(used@), parts@.len() as int),
        forall|k: int| 0 <= k < r@.len() ==> #[trigger] r@[k] < parts@.len(),
{
    let ghost us = text::views(used@);
    let mut r: Vec<usize> = Vec::new();
    let mut i: usize = 0;
    while i < parts.len()
        invariant
            i <= parts@.len(),
            us == text::views(used@),
            r@ == left_over(parts@, us, i as int),
            forall|k: int| 0 <= k < r@.len() ==> #[trigger] r@[k] < parts@.len(),
        decreases parts@.len() - i,
    {
        if !has_name(used, parts[i].key.as_str()) {
            r.push(i);
        }
        i += 1;
    }
    r
}

fn make_misc(parts: &Vec<PartInst>, rest: &Vec<usize>) -> (r: (Block, String))
    requires
        rest@.len() > 0,
        forall|k: int| 0 <= k < rest@.len() ==> #[trigger] rest@[k] < parts@.len(),
    ensures
        r.0@ == misc_block(parts@, rest@),
        r.1@ == misc_note(parts@, rest@),
{
    let mut leaves: Vec<Tree> = Vec::new();
    let mut ids: Vec<String> = Vec::new();
    let mut i: usize = 0;
    while i < rest.len()
        invariant
            i <= rest@.len(),
            forall|k: int| 0 <= k < rest@.len() ==> #[trigger] rest@[k] < parts@.len(),
            leaves@.len() == i,
            ids@.len() == i,
            forall|k: int|
                0 <= k < i ==> (#[trigger] leaves@[k])@ == TreeV::leaf(
                    parts@[rest@[k] as int].key@,
                ),
            forall|k: int| 0 <= k < i ==> (#[trigger] ids@[k])@ == parts@[rest@[k] as int].id@,
        decreases rest@.len() - i,
    {
        let j = rest[i];
        leaves.push(Tree::leaf(parts[j].key.as_str()));
        ids.push(parts[j].id.clone());
        i += 1;
    }
    assert(tree::trees_v(leaves@) =~= leaves_of(parts@, rest@));
    assert(text::views(ids@) =~= ids_listed(parts@, rest@));
    let mut rows = rows_of_four(&leaves, DEFAULT_GAP, "center");
    let ghost rv = tree::trees_v(rows@);
    let t = if rows.len() > 1 {
        Tree::col_of(rows, DEFAULT_GAP, "center")
    } else {
        let t = rows.remove(0);
        assert(rv[0] == t@);
        t
    };
    let j = join(&ids, ", ");
    let note = Line::of(
        "note: parts not mentioned in any layout tree were put in a MISC block: ",
    ).add(j.as_str()).done();
    let b = Block { title: "MISC".to_owned(), note: None, has_tree: true, tree: t };
    assert(b@ =~= misc_block(parts@, rest@));
    (b, note)
}

fn key_blocks(v: &Vec<Block>) -> (r: Vec<Block>)
    ensures
        lint::blocks_v(r@) == keyed_blocks(lint::blocks_v(v@)),
{
    let ghost want = keyed_blocks(lint::blocks_v(v@));
    let mut r: Vec<Block> = Vec::new();
    let mut i: usize = 0;
    while i < v.len()
        invariant
            i <= v@.len(),
            want == keyed_blocks(lint::blocks_v(v@)),
            r@.len() == i,
            forall|k: int| 0 <= k < i ==> (#[trigger] r@[k])@ == want[k],
        decreases v@.len() - i,
    {
        let b = key_block(&v[i]);
        assert(lint::blocks_v(v@)[i as int] == v@[i as int]@);
        assert(b@ == want[i as int]);
        r.push(b);
        i += 1;
    }
    assert(lint::blocks_v(r@) =~= want);
    r
}

/// Assigns the parts of a circuit to blocks.
pub fn plan(
    parts: &Vec<PartInst>,
    power: &Vec<String>,
    index: &SymbolIndex,
    layout: &Vec<Block>,
    notes: Vec<String>,
) -> (r: (Vec<Plan>, Vec<String>))
    requires
        group::parts_ok(parts@),
    ensures
        (PlannedV { plans: plans_v(r.0@), errors: text::views(r.1@) }) == planned(
            parts@,
            text::views(power@),
            *index,
            lint::blocks_v(layout@),
            text::views(notes@),
        ),
        members_ok(plans_v(r.0@), parts@.len() as int),
{
    let ghost lv = lint::blocks_v(layout@);
    let ghost pw = text::views(power@);
    let a = collect_blocks(parts, layout, notes);
    assert(lv.len() == layout@.len());
    let keyed = key_blocks(layout);
    let (fixed, mut said) = lint_layout(&keyed, parts, power, index);
    assert(text::views(said@).len() == said@.len());
    assert(lint::blocks_v(fixed@).len() == fixed@.len());
    let again = said.len() > 0;
    let mut errors = a.errors;
    let ghost e0 = errors@;
    let ghost s0 = said@;
    errors.append(&mut said);
    assert(errors@ =~= e0 + s0);
    assert(text::views(errors@) =~= text::views(e0) + text::views(s0));
    let (used, mut plans) = if again {
        let b = recollect_blocks(parts, &fixed);
        (b.used, b.plans)
    } else {
        (a.used, a.plans)
    };
    let rest = find_left_over(parts, &used);
    if rest.len() > 0 {
        let (b, note) = make_misc(parts, &rest);
        let ghost p0 = plans_v(plans@);
        let p = Plan { block: b, members: rest };
        let ghost pv = p@;
        plans.push(p);
        assert(plans_v(plans@) =~= p0.push(pv));
        let ghost e1 = text::views(errors@);
        let ghost nv = note@;
        errors.push(note);
        assert(text::views(errors@) =~= e1.push(nv));
    }
    (plans, errors)
}

} // verus!
