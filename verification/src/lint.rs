//! Repairs of badly proportioned layouts: unused units beside their power unit, small blocks folded
//! or gathered, tall columns split.
use crate::engine;
use crate::engine::{is_power_net, PartInst};
use crate::geom;
use crate::group;
use crate::names;
use crate::names::{add_distinct, has_name, name_set};
use crate::orient;
use crate::orient::net_at;
use crate::symlib::SymbolIndex;
use crate::text;
use crate::text::{contains, join, quote_all, same, split, Line};
use crate::tree;
use crate::tree::{prune, replace_leaf, take_leaf, tree_ids, Tree, TreeV};
use vstd::prelude::*;

verus! {

/// A block of a layout: its title, the note under it, and the tree of its parts.
#[derive(Debug)]
pub struct Block {
    pub title: String,
    pub note: Option<String>,
    pub has_tree: bool,
    pub tree: Tree,
}

#[verifier::ext_equal]
pub struct BlockV {
    pub title: Seq<char>,
    pub note: Option<Seq<char>>,
    pub has_tree: bool,
    pub tree: TreeV,
}

impl Block {
    pub open spec fn view(&self) -> BlockV {
        BlockV {
            title: self.title@,
            note: tree::text_v(self.note),
            has_tree: self.has_tree,
            tree: self.tree@,
        }
    }

    pub fn dup(&self) -> (r: Block)
        ensures
            r@ == self@,
    {
        let note = match &self.note {
            Some(n) => Some(n.clone()),
            None => None,
        };
        Block {
            title: self.title.clone(),
            note,
            has_tree: self.has_tree,
            tree: self.tree.dup(),
        }
    }
}

pub open spec fn blocks_v(v: Seq<Block>) -> Seq<BlockV> {
    Seq::new(v.len(), |i: int| v[i]@)
}

pub open spec fn with_tree(b: BlockV, t: TreeV) -> BlockV {
    BlockV { tree: t, ..b }
}

fn replace_tree(v: &mut Vec<Block>, i: usize, t: Tree)
    requires
        i < old(v)@.len(),
    ensures
        final(v)@.len() == old(v)@.len(),
        blocks_v(final(v)@) == blocks_v(old(v)@).update(
            i as int,
            with_tree(blocks_v(old(v)@)[i as int], t@),
        ),
{
    let ghost v0 = v@;
    let ghost tv = t@;
    let mut b = v[i].dup();
    b.tree = t;
    v.set(i, b);
    assert(blocks_v(v@) =~= blocks_v(v0).update(i as int, with_tree(blocks_v(v0)[i as int], tv)));
}

fn dup_blocks(v: &Vec<Block>) -> (r: Vec<Block>)
    ensures
        blocks_v(r@) == blocks_v(v@),
        r@.len() == v@.len(),
{
    let mut r: Vec<Block> = Vec::new();
    let mut i: usize = 0;
    while i < v.len()
        invariant
            i <= v@.len(),
            r@.len() == i,
            forall|k: int| 0 <= k < i ==> (#[trigger] r@[k])@ == v@[k]@,
        decreases v@.len() - i,
    {
        r.push(v[i].dup());
        i += 1;
    }
    assert(blocks_v(r@) =~= blocks_v(v@));
    r
}

// ---------------------------------------------------------------- parts by key
/// Whether a part is meant by a key: its id with the unit, or the id alone for the first unit.
pub open spec fn answers(p: PartInst, k: Seq<char>) -> bool {
    k == p.id@ + "#"@ + text::numeral(p.unit as int) || (p.unit == 1 && k == p.id@)
}

/// The last of the first `n` parts that a key means.
pub open spec fn meant_part(parts: Seq<PartInst>, k: Seq<char>, n: int) -> Option<usize>
    decreases n,
{
    if n <= 0 || n > parts.len() {
        None
    } else if answers(parts[n - 1], k) {
        Some((n - 1) as usize)
    } else {
        meant_part(parts, k, n - 1)
    }
}

pub open spec fn meant(parts: Seq<PartInst>, k: Seq<char>) -> Option<usize> {
    meant_part(parts, k, parts.len() as int)
}

pub fn find_meant(parts: &Vec<PartInst>, k: &str) -> (r: Option<usize>)
    ensures
        r == meant(parts@, k@),
        r is Some ==> r->0 < parts@.len(),
{
    let mut n: usize = parts.len();
    while n > 0
        invariant
            n <= parts@.len(),
            meant(parts@, k@) == meant_part(parts@, k@, n as int),
        decreases n,
    {
        let p = &parts[n - 1];
        let long = Line::of(p.id.as_str()).add("#").whole(p.unit as i64).done();
        if same(k, long.as_str()) || (p.unit == 1 && same(k, p.id.as_str())) {
            return Some(n - 1);
        }
        n -= 1;
    }
    None
}

/// The signal nets of the first `n` pins noted for a part, added to a set.
pub open spec fn add_signals(
    s: Seq<Seq<char>>,
    p: PartInst,
    power: Seq<Seq<char>>,
    index: SymbolIndex,
    n: int,
) -> Seq<Seq<char>>
    decreases n,
{
    if n <= 0 {
        s
    } else {
        let rest = add_signals(s, p, power, index, n - 1);
        let net = p.pinmap.vals@[n - 1]@;
        if net != "nc"@ && net != "float"@ && !engine::power_net(net, power, index) {
            names::set_add(rest, net)
        } else {
            rest
        }
    }
}

/// The signal nets of the first `n` keys.
pub open spec fn nets_of_keys(
    parts: Seq<PartInst>,
    keys: Seq<Seq<char>>,
    power: Seq<Seq<char>>,
    index: SymbolIndex,
    n: int,
) -> Seq<Seq<char>>
    decreases n,
{
    if n <= 0 {
        Seq::empty()
    } else {
        let rest = nets_of_keys(parts, keys, power, index, n - 1);
        match meant(parts, keys[n - 1]) {
            Some(i) => {
                let p = parts[i as int];
                add_signals(rest, p, power, index, p.pinmap.vals@.len() as int)
            },
            None => rest,
        }
    }
}

pub open spec fn tree_nets(
    parts: Seq<PartInst>,
    t: TreeV,
    power: Seq<Seq<char>>,
    index: SymbolIndex,
) -> Seq<Seq<char>> {
    let ids = tree::ids_of(t);
    nets_of_keys(parts, ids, power, index, ids.len() as int)
}

fn nets_of_tree(parts: &Vec<PartInst>, t: &Tree, power: &Vec<String>, index: &SymbolIndex) -> (r:
    Vec<String>)
    requires
        group::parts_ok(parts@),
    ensures
        text::views(r@) == tree_nets(parts@, t@, text::views(power@), *index),
{
    let ids = tree_ids(t);
    let ghost ks = text::views(ids@);
    let ghost pw = text::views(power@);
    let mut r: Vec<String> = Vec::new();
    let mut i: usize = 0;
    assert(text::views(r@) =~= nets_of_keys(parts@, ks, pw, *index, 0));
    while i < ids.len()
        invariant
            i <= ids@.len(),
            group::parts_ok(parts@),
            ks == text::views(ids@),
            pw == text::views(power@),
            text::views(r@) == nets_of_keys(parts@, ks, pw, *index, i as int),
        decreases ids@.len() - i,
    {
        assert(ks[i as int] == ids@[i as int]@);
        match find_meant(parts, ids[i].as_str()) {
            Some(j) => {
                let p = &parts[j];
                assert(p.wf());
                let vals = p.pinmap.values();
                let ghost r0 = text::views(r@);
                let mut k: usize = 0;
                while k < vals.len()
                    invariant
                        k <= vals@.len(),
                        vals@ == p.pinmap.vals@,
                        pw == text::views(power@),
                        text::views(r@) == add_signals(r0, *p, pw, *index, k as int),
                    decreases vals@.len() - k,
                {
                    let net = vals[k].as_str();
                    if !same(net, "nc") && !same(net, "float") && !is_power_net(net, power, index) {
                        add_distinct(&mut r, vals[k].clone());
                    }
                    k += 1;
                }
            },
            None => {},
        }
        i += 1;
    }
    r
}

/// How many of the first `n` names are in a list.
pub open spec fn common(a: Seq<Seq<char>>, b: Seq<Seq<char>>, n: int) -> nat
    decreases n,
{
    if n <= 0 {
        0
    } else {
        common(a, b, n - 1) + (if b.contains(a[n - 1]) {
            1nat
        } else {
            0nat
        })
    }
}

fn count_common(a: &Vec<String>, b: &Vec<String>) -> (r: usize)
    ensures
        r == common(text::views(a@), text::views(b@), a@.len() as int),
{
    let ghost av = text::views(a@);
    let ghost bv = text::views(b@);
    let mut r: usize = 0;
    let mut i: usize = 0;
    while i < a.len()
        invariant
            i <= a@.len(),
            av == text::views(a@),
            bv == text::views(b@),
            r <= i,
            r == common(av, bv, i as int),
        decreases a@.len() - i,
    {
        assert(av[i as int] == a@[i as int]@);
        if has_name(b, a[i].as_str()) {
            r += 1;
        }
        i += 1;
    }
    r
}

// ---------------------------------------------------------------- unused units
/// The keys of the first `n` blocks.
pub open spec fn keys_of(v: Seq<BlockV>, n: int) -> Seq<Seq<char>>
    decreases n,
{
    if n <= 0 {
        Seq::empty()
    } else {
        keys_of(v, n - 1) + tree::ids_of(v[n - 1].tree)
    }
}

pub open spec fn key_set(v: Seq<BlockV>) -> Seq<Seq<char>> {
    let ks = keys_of(v, v.len() as int);
    names::distinct(ks, ks.len() as int)
}

fn all_keys(v: &Vec<Block>) -> (r: Vec<String>)
    ensures
        text::views(r@) == key_set(blocks_v(v@)),
{
    let ghost bv = blocks_v(v@);
    let mut all: Vec<String> = Vec::new();
    let mut i: usize = 0;
    assert(text::views(all@) =~= keys_of(bv, 0));
    while i < v.len()
        invariant
            i <= v@.len(),
            bv == blocks_v(v@),
            text::views(all@) == keys_of(bv, i as int),
        decreases v@.len() - i,
    {
        assert(bv[i as int] == v@[i as int]@);
        let mut more = tree_ids(&v[i].tree);
        let ghost a0 = all@;
        let ghost m0 = more@;
        all.append(&mut more);
        assert(all@ =~= a0 + m0);
        assert(text::views(all@) =~= text::views(a0) + text::views(m0));
        i += 1;
    }
    assert(text::views(all@).len() == all@.len());
    name_set(&all)
}

/// Whether a unit is connected to nothing.
pub open spec fn idle(p: PartInst) -> bool {
    forall|k: int|
        0 <= k < p.pins@.len() ==> match #[trigger] orient::pin_net(p, k) {
            Some(n) => n == "nc"@ || n == "float"@ || n.len() == 0,
            None => true,
        }
}

pub open spec fn on_power(p: PartInst, k: int, power: Seq<Seq<char>>, index: SymbolIndex) -> bool {
    match orient::pin_net(p, k) {
        Some(n) => engine::power_net(n, power, index),
        None => engine::power_net(""@, power, index),
    }
}

/// Whether a unit holds nothing but supply pins.
pub open spec fn power_unit(p: PartInst, power: Seq<Seq<char>>, index: SymbolIndex) -> bool {
    &&& forall|k: int|
        0 <= k < p.pins@.len() ==> match #[trigger] orient::pin_net(p, k) {
            Some(n) => engine::power_net(n, power, index) || n == "nc"@ || n == "float"@,
            None => true,
        }
    &&& exists|k: int| 0 <= k < p.pins@.len() && #[trigger] on_power(p, k, power, index)
}

fn is_idle(p: &PartInst) -> (r: bool)
    requires
        p.wf(),
    ensures
        r == idle(*p),
{
    let mut k: usize = 0;
    while k < p.pins.len()
        invariant
            k <= p.pins@.len(),
            p.wf(),
            forall|j: int|
                0 <= j < k ==> match #[trigger] orient::pin_net(*p, j) {
                    Some(n) => n == "nc"@ || n == "float"@ || n.len() == 0,
                    None => true,
                },
        decreases p.pins@.len() - k,
    {
        match net_at(p, k) {
            Some(n) => {
                if !(same(n.as_str(), "nc") || same(n.as_str(), "float") || n.as_str().is_empty()) {
                    assert(orient::pin_net(*p, k as int) == Some(n@));
                    return false;
                }
            },
            None => {},
        }
        k += 1;
    }
    true
}

fn is_power_unit(p: &PartInst, power: &Vec<String>, index: &SymbolIndex) -> (r: bool)
    requires
        p.wf(),
    ensures
        r == power_unit(*p, text::views(power@), *index),
{
    let ghost pw = text::views(power@);
    let mut any = false;
    let mut k: usize = 0;
    while k < p.pins.len()
        invariant
            k <= p.pins@.len(),
            p.wf(),
            pw == text::views(power@),
            forall|j: int|
                0 <= j < k ==> match #[trigger] orient::pin_net(*p, j) {
                    Some(n) => engine::power_net(n, pw, *index) || n == "nc"@ || n == "float"@,
                    None => true,
                },
            any == exists|j: int| 0 <= j < k && #[trigger] on_power(*p, j, pw, *index),
        decreases p.pins@.len() - k,
    {
        let ghost any0 = any;
        match net_at(p, k) {
            Some(n) => {
                let pow = is_power_net(n.as_str(), power, index);
                assert(pow == on_power(*p, k as int, pw, *index));
                if !(pow || same(n.as_str(), "nc") || same(n.as_str(), "float")) {
                    assert(orient::pin_net(*p, k as int) == Some(n@));
                    return false;
                }
                any = any || pow;
            },
            None => {
                let pow = is_power_net("", power, index);
                assert(pow == on_power(*p, k as int, pw, *index));
                any = any || pow;
            },
        }
        proof {
            if any0 {
                let j = choose|j: int| 0 <= j < k && #[trigger] on_power(*p, j, pw, *index);
                assert(on_power(*p, j, pw, *index));
            }
        }
        k += 1;
    }
    any
}

pub open spec fn base_of(k: Seq<char>) -> Seq<char> {
    text::pieces(k, '#')[0]
}

/// The first key from `i` on of a power unit of the same symbol.
pub open spec fn power_key(
    parts: Seq<PartInst>,
    keys: Seq<Seq<char>>,
    power: Seq<Seq<char>>,
    index: SymbolIndex,
    key: Seq<char>,
    i: int,
) -> int
    decreases keys.len() - i,
{
    if i < 0 || i >= keys.len() {
        i
    } else if base_of(keys[i]) == base_of(key) && keys[i] != key && match meant(parts, keys[i]) {
        Some(j) => power_unit(parts[j as int], power, index),
        None => false,
    } {
        i
    } else {
        power_key(parts, keys, power, index, key, i + 1)
    }
}

/// Whether a key is that of an unused unit.
pub open spec fn unused(parts: Seq<PartInst>, key: Seq<char>) -> bool {
    text::has(key, "#"@) && match meant(parts, key) {
        Some(i) => idle(parts[i as int]),
        None => false,
    }
}

pub struct DrawnOutV {
    pub v: Seq<BlockV>,
    pub leaf: Option<TreeV>,
}

/// The blocks from `i` on without the first leaf of a key that is not a whole block.
pub open spec fn draw_out(v: Seq<BlockV>, key: Seq<char>, i: int) -> DrawnOutV
    decreases v.len() - i,
{
    if i < 0 || i >= v.len() {
        DrawnOutV { v, leaf: None }
    } else if v[i].tree.style.part == Some(key) {
        draw_out(v, key, i + 1)
    } else {
        let t = tree::taken(v[i].tree, key);
        match t.got {
            Some(l) => DrawnOutV {
                v: v.update(i, with_tree(v[i], tree::pruned(t.t).t)),
                leaf: Some(l),
            },
            None => draw_out(v, key, i + 1),
        }
    }
}

pub open spec fn beside(a: TreeV, b: TreeV) -> TreeV {
    TreeV::row_of(seq![a, b], 508_000, "center"@)
}

/// The blocks from `i` on with a leaf beside the first leaf of another key.
pub open spec fn put_beside(v: Seq<BlockV>, pw: Seq<char>, leaf: TreeV, i: int) -> Seq<BlockV>
    decreases v.len() - i,
{
    if i < 0 || i >= v.len() {
        v
    } else if v[i].tree.style.part == Some(pw) {
        v.update(i, with_tree(v[i], beside(v[i].tree, leaf)))
    } else {
        let r = tree::replaced(v[i].tree, pw, beside(TreeV::leaf(pw), leaf));
        if r.done {
            v.update(i, with_tree(v[i], r.t))
        } else {
            put_beside(v, pw, leaf, i + 1)
        }
    }
}

#[verifier::ext_equal]
pub struct LintV {
    pub v: Seq<BlockV>,
    pub notes: Seq<Seq<char>>,
}

pub open spec fn unit_note(key: Seq<char>, pw: Seq<char>) -> Seq<char> {
    "note: unused unit "@ + key + " was moved next to the power unit "@ + pw
}

/// An unused unit moved beside the power unit of its symbol.
pub open spec fn unit_moved(
    parts: Seq<PartInst>,
    keys: Seq<Seq<char>>,
    power: Seq<Seq<char>>,
    index: SymbolIndex,
    s: LintV,
    key: Seq<char>,
) -> LintV {
    let j = power_key(parts, keys, power, index, key, 0);
    if !unused(parts, key) || j >= keys.len() {
        s
    } else {
        let d = draw_out(s.v, key, 0);
        match d.leaf {
            None => s,
            Some(l) => LintV {
                v: put_beside(d.v, keys[j], l, 0),
                notes: s.notes.push(unit_note(key, keys[j])),
            },
        }
    }
}

/// The unused units among the first `n` keys moved.
pub open spec fn units_moved(
    parts: Seq<PartInst>,
    keys: Seq<Seq<char>>,
    power: Seq<Seq<char>>,
    index: SymbolIndex,
    v: Seq<BlockV>,
    n: int,
) -> LintV
    decreases n,
{
    if n <= 0 {
        LintV { v, notes: Seq::empty() }
    } else {
        unit_moved(
            parts,
            keys,
            power,
            index,
            units_moved(parts, keys, power, index, v, n - 1),
            keys[n - 1],
        )
    }
}

fn find_power_key(
    parts: &Vec<PartInst>,
    keys: &Vec<String>,
    power: &Vec<String>,
    index: &SymbolIndex,
    key: &str,
) -> (r: usize)
    requires
        group::parts_ok(parts@),
    ensures
        r <= keys@.len(),
        r == power_key(parts@, text::views(keys@), text::views(power@), *index, key@, 0),
{
    let ghost ks = text::views(keys@);
    let ghost pw = text::views(power@);
    let base = split(key, '#');
    assert(text::views(base@)[0] == base@[0]@);
    let mut i: usize = 0;
    while i < keys.len()
        invariant
            i <= keys@.len(),
            group::parts_ok(parts@),
            ks == text::views(keys@),
            pw == text::views(power@),
            base@.len() > 0,
            base@[0]@ == base_of(key@),
            power_key(parts@, ks, pw, *index, key@, 0) == power_key(
                parts@,
                ks,
                pw,
                *index,
                key@,
                i as int,
            ),
        decreases keys@.len() - i,
    {
        assert(ks[i as int] == keys@[i as int]@);
        let own = split(keys[i].as_str(), '#');
        assert(text::views(own@)[0] == own@[0]@);
        if same(own[0].as_str(), base[0].as_str()) && !same(keys[i].as_str(), key) {
            match find_meant(parts, keys[i].as_str()) {
                Some(j) => {
                    assert(parts@[j as int].wf());
                    if is_power_unit(&parts[j], power, index) {
                        return i;
                    }
                },
                None => {},
            }
        }
        i += 1;
    }
    i
}

fn is_leaf_of(t: &Tree, key: &str) -> (r: bool)
    ensures
        r == (t@.style.part == Some(key@)),
{
    match &t.style.part {
        Some(p) => same(p.as_str(), key),
        None => false,
    }
}

fn take_out(v: &mut Vec<Block>, key: &str) -> (r: Option<Tree>)
    ensures
        final(v)@.len() == old(v)@.len(),
        blocks_v(final(v)@) == draw_out(blocks_v(old(v)@), key@, 0).v,
        tree::got_v(r) == draw_out(blocks_v(old(v)@), key@, 0).leaf,
{
    let ghost bv = blocks_v(v@);
    let mut i: usize = 0;
    while i < v.len()
        invariant
            i <= v@.len(),
            v@ == old(v)@,
            bv == blocks_v(v@),
            draw_out(bv, key@, 0) == draw_out(bv, key@, i as int),
        decreases v@.len() - i,
    {
        assert(bv[i as int] == v@[i as int]@);
        if !is_leaf_of(&v[i].tree, key) {
            let (t, got) = take_leaf(&v[i].tree, key);
            match got {
                Some(l) => {
                    let (t, _left) = prune(&t);
                    replace_tree(v, i, t);
                    return Some(l);
                },
                None => {},
            }
        }
        i += 1;
    }
    None
}

fn pair(a: Tree, b: Tree) -> (r: Tree)
    ensures
        r@ == beside(a@, b@),
{
    let ghost av = a@;
    let ghost bv = b@;
    let mut v: Vec<Tree> = Vec::new();
    v.push(a);
    v.push(b);
    assert(tree::trees_v(v@) =~= seq![av, bv]);
    Tree::row_of(v, 508_000, "center")
}

fn put_in(v: &mut Vec<Block>, pw: &str, leaf: &Tree)
    ensures
        final(v)@.len() == old(v)@.len(),
        blocks_v(final(v)@) == put_beside(blocks_v(old(v)@), pw@, leaf@, 0),
{
    let ghost bv = blocks_v(v@);
    let new = pair(Tree::leaf(pw), leaf.dup());
    let mut i: usize = 0;
    while i < v.len()
        invariant
            i <= v@.len(),
            v@ == old(v)@,
            bv == blocks_v(v@),
            new@ == beside(TreeV::leaf(pw@), leaf@),
            put_beside(bv, pw@, leaf@, 0) == put_beside(bv, pw@, leaf@, i as int),
        decreases v@.len() - i,
    {
        assert(bv[i as int] == v@[i as int]@);
        if is_leaf_of(&v[i].tree, pw) {
            let t = pair(v[i].tree.dup(), leaf.dup());
            replace_tree(v, i, t);
            return;
        }
        let (t, done) = replace_leaf(&v[i].tree, pw, &new);
        if done {
            replace_tree(v, i, t);
            return;
        }
        i += 1;
    }
}

fn move_unit(
    parts: &Vec<PartInst>,
    keys: &Vec<String>,
    power: &Vec<String>,
    index: &SymbolIndex,
    v: &mut Vec<Block>,
    notes: &mut Vec<String>,
    key: &str,
)
    requires
        group::parts_ok(parts@),
    ensures
        (LintV { v: blocks_v(final(v)@), notes: text::views(final(notes)@) }) == unit_moved(
            parts@,
            text::views(keys@),
            text::views(power@),
            *index,
            LintV { v: blocks_v(old(v)@), notes: text::views(old(notes)@) },
            key@,
        ),
{
    let ghost ks = text::views(keys@);
    if !contains(key, "#") {
        return;
    }
    match find_meant(parts, key) {
        Some(i) => {
            assert(parts@[i as int].wf());
            if !is_idle(&parts[i]) {
                return;
            }
        },
        None => return,
    }
    let j = find_power_key(parts, keys, power, index, key);
    if j >= keys.len() {
        return;
    }
    assert(ks[j as int] == keys@[j as int]@);
    let ghost v0 = blocks_v(v@);
    let ghost n0 = text::views(notes@);
    match take_out(v, key) {
        Some(l) => {
            put_in(v, keys[j].as_str(), &l);
            let n = Line::of("note: unused unit ").add(key).add(
                " was moved next to the power unit ",
            ).add(keys[j].as_str()).done();
            notes.push(n);
            assert(text::views(notes@) =~= n0.push(unit_note(key@, ks[j as int])));
        },
        None => {
            proof {
                lemma_kept(v0, key@, 0);
            }
        },
    }
}

proof fn lemma_kept(v: Seq<BlockV>, key: Seq<char>, i: int)
    ensures
        draw_out(v, key, i).leaf is None ==> draw_out(v, key, i).v == v,
    decreases v.len() - i,
{
    if 0 <= i < v.len() {
        lemma_kept(v, key, i + 1);
    }
}

// ---------------------------------------------------------------- folding small blocks
pub open spec fn id_set(b: BlockV) -> Seq<Seq<char>> {
    let ids = tree::ids_of(b.tree);
    names::distinct(ids, ids.len() as int)
}

fn ids_of_block(b: &Block) -> (r: Vec<String>)
    ensures
        text::views(r@) == id_set(b@),
        r@.len() == id_set(b@).len(),
{
    let ids = tree_ids(&b.tree);
    assert(text::views(ids@).len() == ids@.len());
    let r = name_set(&ids);
    assert(text::views(r@).len() == r@.len());
    r
}

/// Whether one of the parts has many pins.
pub open spec fn big_part(parts: Seq<PartInst>, ids: Seq<Seq<char>>) -> bool {
    exists|i: int|
        0 <= i < ids.len() && match meant(parts, #[trigger] ids[i]) {
            Some(j) => parts[j as int].pins@.len() >= 8,
            None => false,
        }
}

fn has_big_part(parts: &Vec<PartInst>, ids: &Vec<String>) -> (r: bool)
    ensures
        r == big_part(parts@, text::views(ids@)),
{
    let ghost ks = text::views(ids@);
    let mut i: usize = 0;
    while i < ids.len()
        invariant
            i <= ids@.len(),
            ks == text::views(ids@),
            forall|k: int|
                0 <= k < i ==> !(match meant(parts@, #[trigger] ks[k]) {
                    Some(j) => parts@[j as int].pins@.len() >= 8,
                    None => false,
                }),
        decreases ids@.len() - i,
    {
        assert(ks[i as int] == ids@[i as int]@);
        match find_meant(parts, ids[i].as_str()) {
            Some(j) => {
                if parts[j].pins.len() >= 8 {
                    return true;
                }
            },
            None => {},
        }
        i += 1;
    }
    false
}

/// Whether a block holds one or two small parts.
pub open spec fn tiny(parts: Seq<PartInst>, b: BlockV) -> bool {
    0 < id_set(b).len() < 3 && !big_part(parts, id_set(b))
}

fn is_tiny(parts: &Vec<PartInst>, b: &Block) -> (r: bool)
    ensures
        r == tiny(parts@, b@),
{
    let ids = ids_of_block(b);
    ids.len() > 0 && ids.len() < 3 && !has_big_part(parts, &ids)
}

/// The nets that a block shares with a set of nets.
pub open spec fn shared(
    parts: Seq<PartInst>,
    power: Seq<Seq<char>>,
    index: SymbolIndex,
    b: BlockV,
    mine: Seq<Seq<char>>,
) -> nat {
    let t = tree_nets(parts, b.tree, power, index);
    common(t, mine, t.len() as int)
}

/// The block of medium size below `n` that shares most nets with block `i`, the first of equals.
pub open spec fn best_target(
    parts: Seq<PartInst>,
    power: Seq<Seq<char>>,
    index: SymbolIndex,
    v: Seq<BlockV>,
    i: int,
    n: int,
) -> (Option<usize>, nat)
    decreases n,
{
    if n <= 0 {
        (None, 0)
    } else {
        let b = best_target(parts, power, index, v, i, n - 1);
        let size = id_set(v[n - 1]).len();
        let w = shared(parts, power, index, v[n - 1], tree_nets(parts, v[i].tree, power, index));
        if n - 1 != i && 3 <= size < 12 && w > b.1 {
            (Some((n - 1) as usize), w)
        } else {
            b
        }
    }
}

fn find_target(
    parts: &Vec<PartInst>,
    power: &Vec<String>,
    index: &SymbolIndex,
    v: &Vec<Block>,
    i: usize,
) -> (r: Option<usize>)
    requires
        group::parts_ok(parts@),
        i < v@.len(),
    ensures
        r == best_target(
            parts@,
            text::views(power@),
            *index,
            blocks_v(v@),
            i as int,
            v@.len() as int,
        ).0,
        r is Some ==> r->0 < v@.len() && r->0 != i,
{
    let ghost bv = blocks_v(v@);
    let ghost pw = text::views(power@);
    assert(bv[i as int] == v@[i as int]@);
    let mine = nets_of_tree(parts, &v[i].tree, power, index);
    let mut best: Option<usize> = None;
    let mut best_w: usize = 0;
    let mut j: usize = 0;
    while j < v.len()
        invariant
            j <= v@.len(),
            i < v@.len(),
            group::parts_ok(parts@),
            bv == blocks_v(v@),
            pw == text::views(power@),
            text::views(mine@) == tree_nets(parts@, bv[i as int].tree, pw, *index),
            (best, best_w as nat) == best_target(parts@, pw, *index, bv, i as int, j as int),
            best is Some ==> best->0 < v@.len() && best->0 != i,
        decreases v@.len() - j,
    {
        assert(bv[j as int] == v@[j as int]@);
        let ids = ids_of_block(&v[j]);
        if j != i && ids.len() >= 3 && ids.len() < 12 {
            let theirs = nets_of_tree(parts, &v[j].tree, power, index);
            let w = count_common(&theirs, &mine);
            assert(text::views(theirs@).len() == theirs@.len());
            if w > best_w {
                best = Some(j);
                best_w = w;
            }
        }
        j += 1;
    }
    best
}

/// The first block from `i` on that is tiny and has a block to go into.
pub open spec fn first_fold(
    parts: Seq<PartInst>,
    power: Seq<Seq<char>>,
    index: SymbolIndex,
    v: Seq<BlockV>,
    i: int,
) -> int
    decreases v.len() - i,
{
    if i < 0 || i >= v.len() {
        i
    } else if tiny(parts, v[i]) && best_target(parts, power, index, v, i, v.len() as int).0 is Some {
        i
    } else {
        first_fold(parts, power, index, v, i + 1)
    }
}

/// A tree with another one added: to a short row, under a long one, beside a column.
pub open spec fn joined_tree(t: TreeV, b: TreeV) -> TreeV {
    if t.is_row {
        if t.row.len() < 3 {
            TreeV { row: t.row.push(b), ..t }
        } else {
            TreeV::col_of(seq![t, b], 1_016_000, "start"@)
        }
    } else if t.is_col {
        TreeV::row_of(seq![t, b], 1_270_000, "center"@)
    } else {
        TreeV::row_of(seq![t, b], 1_016_000, "center"@)
    }
}

pub open spec fn fold_note(title: Seq<char>, n: nat, into: Seq<char>) -> Seq<char> {
    "note: block '"@ + title + "' ("@ + text::digits(n) + " parts) was folded into '"@ + into
        + "'; define it inside that block's tree yourself next time"@
}

/// Tiny blocks folded into the blocks they share most nets with, until none is left that can be.
pub open spec fn folded(
    parts: Seq<PartInst>,
    power: Seq<Seq<char>>,
    index: SymbolIndex,
    s: LintV,
) -> LintV
    decreases s.v.len(),
{
    let i = first_fold(parts, power, index, s.v, 0);
    let j = best_target(parts, power, index, s.v, i, s.v.len() as int).0->0 as int;
    if s.v.len() <= 1 || i < 0 || i >= s.v.len() || j >= s.v.len() {
        s
    } else {
        let b = s.v[i];
        let t = s.v[j];
        folded(
            parts,
            power,
            index,
            LintV {
                v: s.v.update(j, with_tree(t, joined_tree(t.tree, b.tree))).remove(i),
                notes: s.notes.push(fold_note(b.title, id_set(b).len(), t.title)),
            },
        )
    }
}

fn join_trees(t: &Tree, b: &Tree) -> (r: Tree)
    ensures
        r@ == joined_tree(t@, b@),
{
    proof {
        tree::lemma_tree_view(*t);
    }
    if t.is_row && t.row.len() < 3 {
        let mut r = t.dup();
        let ghost r0 = t@.row;
        proof {
            tree::lemma_tree_view(r);
        }
        r.row.push(b.dup());
        proof {
            tree::lemma_tree_view(r);
        }
        assert(r@.row =~= r0.push(b@));
        assert(r@ =~= joined_tree(t@, b@));
        return r;
    }
    let mut v: Vec<Tree> = Vec::new();
    v.push(t.dup());
    v.push(b.dup());
    assert(tree::trees_v(v@) =~= seq![t@, b@]);
    if t.is_row {
        Tree::col_of(v, 1_016_000, "start")
    } else if t.is_col {
        Tree::row_of(v, 1_270_000, "center")
    } else {
        Tree::row_of(v, 1_016_000, "center")
    }
}

fn find_fold(parts: &Vec<PartInst>, power: &Vec<String>, index: &SymbolIndex, v: &Vec<Block>) -> (r:
    Option<(usize, usize)>)
    requires
        group::parts_ok(parts@),
    ensures
        ({
            let bv = blocks_v(v@);
            let i = first_fold(parts@, text::views(power@), *index, bv, 0);
            match r {
                Some(p) => p.0 == i && i < v@.len() && p.1 < v@.len() && p.1 != p.0 && best_target(
                    parts@,
                    text::views(power@),
                    *index,
                    bv,
                    i,
                    bv.len() as int,
                ).0 == Some(p.1),
                None => i >= v@.len(),
            }
        }),
{
    let ghost bv = blocks_v(v@);
    let ghost pw = text::views(power@);
    let mut i: usize = 0;
    while i < v.len()
        invariant
            i <= v@.len(),
            group::parts_ok(parts@),
            bv == blocks_v(v@),
            pw == text::views(power@),
            first_fold(parts@, pw, *index, bv, 0) == first_fold(parts@, pw, *index, bv, i as int),
        decreases v@.len() - i,
    {
        assert(bv[i as int] == v@[i as int]@);
        if is_tiny(parts, &v[i]) {
            match find_target(parts, power, index, v, i) {
                Some(j) => return Some((i, j)),
                None => {},
            }
        }
        i += 1;
    }
    None
}

fn fold_blocks(
    parts: &Vec<PartInst>,
    power: &Vec<String>,
    index: &SymbolIndex,
    v: &mut Vec<Block>,
    notes: &mut Vec<String>,
)
    requires
        group::parts_ok(parts@),
    ensures
        (LintV { v: blocks_v(final(v)@), notes: text::views(final(notes)@) }) == folded(
            parts@,
            text::views(power@),
            *index,
            LintV { v: blocks_v(old(v)@), notes: text::views(old(notes)@) },
        ),
{
    let ghost pw = text::views(power@);
    let ghost want = folded(
        parts@,
        pw,
        *index,
        LintV { v: blocks_v(v@), notes: text::views(notes@) },
    );
    loop
        invariant
            group::parts_ok(parts@),
            pw == text::views(power@),
            want == folded(
                parts@,
                pw,
                *index,
                LintV { v: blocks_v(v@), notes: text::views(notes@) },
            ),
        ensures
            want == (LintV { v: blocks_v(v@), notes: text::views(notes@) }),
        decreases v@.len(),
    {
        if v.len() <= 1 {
            break;
        }
        match find_fold(parts, power, index, v) {
            Some((i, j)) => {
                let ghost bv = blocks_v(v@);
                let ghost n0 = text::views(notes@);
                assert(bv[i as int] == v@[i as int]@);
                assert(bv[j as int] == v@[j as int]@);
                let t = join_trees(&v[j].tree, &v[i].tree);
                let ids = ids_of_block(&v[i]);
                let n = Line::of("note: block '").add(v[i].title.as_str()).add("' (").count(
                    ids.len() as u128,
                ).add(" parts) was folded into '").add(v[j].title.as_str()).add(
                    "'; define it inside that block's tree yourself next time",
                ).done();
                let ghost nv = n@;
                replace_tree(v, j, t);
                let ghost v1 = v@;
                let _gone = v.remove(i);
                notes.push(n);
                proof {
                    assert(blocks_v(v@) =~= blocks_v(v1).remove(i as int));
                    assert(text::views(notes@) =~= n0.push(nv));
                }
            },
            None => {
                break;
            },
        }
    }
}

// ---------------------------------------------------------------- gathering and splitting
/// The blocks among the first `n` that are tiny, or that are not.
pub open spec fn sifted(parts: Seq<PartInst>, v: Seq<BlockV>, want: bool, n: int) -> Seq<BlockV>
    decreases n,
{
    if n <= 0 {
        Seq::empty()
    } else {
        let rest = sifted(parts, v, want, n - 1);
        if tiny(parts, v[n - 1]) == want {
            rest.push(v[n - 1])
        } else {
            rest
        }
    }
}

pub open spec fn trees_of(v: Seq<BlockV>) -> Seq<TreeV> {
    Seq::new(v.len(), |i: int| v[i].tree)
}

pub open spec fn titles_of(v: Seq<BlockV>) -> Seq<Seq<char>> {
    Seq::new(v.len(), |i: int| v[i].title)
}

/// The `i`-th four of a list.
pub open spec fn four_at(v: Seq<TreeV>, i: int) -> Seq<TreeV> {
    v.subrange(4 * i, geom::lo(4 * i + 4, v.len() as int))
}

/// Rows of four.
pub open spec fn fours(v: Seq<TreeV>, gap: int, align: Seq<char>) -> Seq<TreeV> {
    Seq::new(
        ((v.len() + 3) / 4) as nat,
        |i: int| TreeV::row_of(four_at(v, i), gap, align),
    )
}

pub open spec fn gather_note(titles: Seq<Seq<char>>) -> Seq<char> {
    "note: small blocks "@ + text::joined(
        text::quoted(titles.take(geom::lo(6, titles.len() as int)), "'"@, "'"@),
        ", "@,
    ) + " were gathered into one MISC block; compose them inside the blocks they belong to next time"@
}

/// Two or more tiny blocks gathered into one.
pub open spec fn gathered(parts: Seq<PartInst>, s: LintV) -> LintV {
    let n = s.v.len() as int;
    let small = sifted(parts, s.v, true, n);
    if small.len() < 2 {
        s
    } else {
        LintV {
            v: sifted(parts, s.v, false, n).push(
                BlockV {
                    title: "MISC"@,
                    note: None,
                    has_tree: true,
                    tree: TreeV::col_of(
                        fours(trees_of(small), 1_270_000, "start"@),
                        1_270_000,
                        "start"@,
                    ),
                },
            ),
            notes: s.notes.push(gather_note(titles_of(small))),
        }
    }
}

/// Rows of four of a list of trees.
pub(crate) fn rows_of_four(v: &Vec<Tree>, gap: i64, align: &str) -> (r: Vec<Tree>)
    ensures
        tree::trees_v(r@) == fours(tree::trees_v(v@), gap as int, align@),
        r@.len() == fours(tree::trees_v(v@), gap as int, align@).len(),
{
    let ghost tv = tree::trees_v(v@);
    let ghost want = fours(tv, gap as int, align@);
    let mut r: Vec<Tree> = Vec::new();
    let n = v.len();
    let mut i: usize = 0;
    while i < n
        invariant
            n == v@.len(),
            tv == tree::trees_v(v@),
            want == fours(tv, gap as int, align@),
            i <= n,
            i == n || i == 4 * r@.len(),
            r@.len() == (i + 3) / 4,
            forall|k: int| 0 <= k < r@.len() ==> (#[trigger] r@[k])@ == want[k],
        decreases n - i,
    {
        let end: usize = if n - i < 4 { n } else { i + 4 };
        let ghost c = r@.len() as int;
        let mut row: Vec<Tree> = Vec::new();
        let mut j = i;
        while j < end
            invariant
                i <= j <= end,
                end <= n,
                n == v@.len(),
                tv == tree::trees_v(v@),
                tree::trees_v(row@) =~= tv.subrange(i as int, j as int),
            decreases end - j,
        {
            assert(tv[j as int] == v@[j as int]@);
            let ghost r0 = tree::trees_v(row@);
            row.push(v[j].dup());
            assert(tree::trees_v(row@) =~= r0.push(tv[j as int]));
            assert(tv.subrange(i as int, j + 1) =~= tv.subrange(i as int, j as int).push(
                tv[j as int],
            ));
            j += 1;
        }
        assert(tree::trees_v(row@) =~= four_at(tv, c));
        let t = Tree::row_of(row, gap, align);
        assert(t@ == want[c]);
        r.push(t);
        i = end;
    }
    assert(tree::trees_v(r@) =~= want);
    r
}

fn gather(parts: &Vec<PartInst>, v: Vec<Block>, notes: &mut Vec<String>) -> (r: Vec<Block>)
    ensures
        (LintV { v: blocks_v(r@), notes: text::views(final(notes)@) }) == gathered(
            parts@,
            LintV { v: blocks_v(v@), notes: text::views(old(notes)@) },
        ),
{
    let ghost bv = blocks_v(v@);
    let mut small: Vec<Block> = Vec::new();
    let mut rest: Vec<Block> = Vec::new();
    let mut i: usize = 0;
    assert(blocks_v(small@) =~= Seq::empty());
    assert(blocks_v(rest@) =~= Seq::empty());
    while i < v.len()
        invariant
            i <= v@.len(),
            bv == blocks_v(v@),
            blocks_v(small@) == sifted(parts@, bv, true, i as int),
            blocks_v(rest@) == sifted(parts@, bv, false, i as int),
        decreases v@.len() - i,
    {
        assert(bv[i as int] == v@[i as int]@);
        let ghost s0 = blocks_v(small@);
        let ghost r0 = blocks_v(rest@);
        if is_tiny(parts, &v[i]) {
            small.push(v[i].dup());
            assert(blocks_v(small@) =~= s0.push(bv[i as int]));
        } else {
            rest.push(v[i].dup());
            assert(blocks_v(rest@) =~= r0.push(bv[i as int]));
        }
        i += 1;
    }
    assert(blocks_v(small@).len() == small@.len());
    if small.len() < 2 {
        return v;
    }
    let ghost sv = blocks_v(small@);
    let mut trees: Vec<Tree> = Vec::new();
    let mut titles: Vec<String> = Vec::new();
    i = 0;
    while i < small.len()
        invariant
            i <= small@.len(),
            sv == blocks_v(small@),
            trees@.len() == i,
            forall|k: int| 0 <= k < i ==> (#[trigger] trees@[k])@ == sv[k].tree,
            titles@.len() == (if i < 6 {
                i as int
            } else {
                6
            }),
            forall|k: int| 0 <= k < titles@.len() ==> (#[trigger] titles@[k])@ == sv[k].title,
        decreases small@.len() - i,
    {
        assert(sv[i as int] == small@[i as int]@);
        trees.push(small[i].tree.dup());
        if i < 6 {
            titles.push(small[i].title.clone());
        }
        i += 1;
    }
    assert(tree::trees_v(trees@) =~= trees_of(sv));
    assert(text::views(titles@) =~= titles_of(sv).take(geom::lo(6, sv.len() as int)));
    let rows = rows_of_four(&trees, 1_270_000, "start");
    let t = Tree::col_of(rows, 1_270_000, "start");
    let ghost r0 = blocks_v(rest@);
    let b = Block { title: "MISC".to_owned(), note: None, has_tree: true, tree: t };
    let ghost bb = b@;
    rest.push(b);
    assert(blocks_v(rest@) =~= r0.push(bb));
    let quoted = quote_all(&titles, "'", "'");
    let listed = join(&quoted, ", ");
    let n = Line::of("note: small blocks ").add(listed.as_str()).add(
        " were gathered into one MISC block; compose them inside the blocks they belong to next time",
    ).done();
    let ghost n0 = text::views(notes@);
    let ghost nv = n@;
    notes.push(n);
    assert(text::views(notes@) =~= n0.push(nv));
    rest
}

pub open spec fn split_note(title: Seq<char>, n: nat) -> Seq<char> {
    "note: block '"@ + title + "' was a column of "@ + text::digits(n)
        + " items; it was split into two side-by-side columns for a balanced block (compose it that way yourself next time)"@
}

/// A column split into two beside each other.
pub open spec fn two_columns(t: TreeV) -> TreeV {
    let n = t.col.len() as int;
    let half = (n + 1) / 2;
    TreeV::row_of(
        seq![
            TreeV::col_of(t.col.take(half), t.style.gap, "center"@),
            TreeV::col_of(t.col.skip(half), t.style.gap, "center"@),
        ],
        1_524_000,
        "center"@,
    )
}

pub open spec fn is_tall_col(t: TreeV) -> bool {
    t.is_col && t.col.len() >= 4
}

/// The first `n` blocks, tall columns split.
pub open spec fn split_all(v: Seq<BlockV>, n: int) -> Seq<BlockV>
    decreases n,
{
    if n <= 0 {
        Seq::empty()
    } else {
        let b = v[n - 1];
        split_all(v, n - 1).push(
            if is_tall_col(b.tree) {
                with_tree(b, two_columns(b.tree))
            } else {
                b
            },
        )
    }
}

pub open spec fn split_notes(v: Seq<BlockV>, n: int) -> Seq<Seq<char>>
    decreases n,
{
    if n <= 0 {
        Seq::empty()
    } else if is_tall_col(v[n - 1].tree) {
        split_notes(v, n - 1).push(split_note(v[n - 1].title, v[n - 1].tree.col.len()))
    } else {
        split_notes(v, n - 1)
    }
}

fn split_tree(t: &Tree) -> (r: Tree)
    ensures
        r@ == two_columns(t@),
{
    proof {
        tree::lemma_tree_view(*t);
    }
    let ghost tv = t@.col;
    let n = t.col.len();
    let half: usize = n / 2 + n % 2;
    let mut a: Vec<Tree> = Vec::new();
    let mut b: Vec<Tree> = Vec::new();
    let mut i: usize = 0;
    while i < n
        invariant
            i <= n,
            n == t.col@.len(),
            half == (n + 1) / 2,
            tv == tree::trees_v(t.col@),
            a@.len() == (if i < half {
                i
            } else {
                half
            }),
            b@.len() == i - a@.len(),
            forall|k: int| 0 <= k < a@.len() ==> (#[trigger] a@[k])@ == tv[k],
            forall|k: int| 0 <= k < b@.len() ==> (#[trigger] b@[k])@ == tv[half + k],
        decreases n - i,
    {
        assert(tv[i as int] == t.col@[i as int]@);
        let c = t.col[i].dup();
        if i < half {
            a.push(c);
        } else {
            b.push(c);
        }
        i += 1;
    }
    assert(tree::trees_v(a@) =~= tv.take(half as int));
    assert(tree::trees_v(b@) =~= tv.skip(half as int));
    let ca = Tree::col_of(a, t.style.gap, "center");
    let cb = Tree::col_of(b, t.style.gap, "center");
    let ghost cav = ca@;
    let ghost cbv = cb@;
    let mut v: Vec<Tree> = Vec::new();
    v.push(ca);
    v.push(cb);
    assert(tree::trees_v(v@) =~= seq![cav, cbv]);
    Tree::row_of(v, 1_524_000, "center")
}

fn split_columns(v: &Vec<Block>, notes: &mut Vec<String>) -> (r: Vec<Block>)
    ensures
        blocks_v(r@) == split_all(blocks_v(v@), v@.len() as int),
        text::views(final(notes)@) == text::views(old(notes)@) + split_notes(
            blocks_v(v@),
            v@.len() as int,
        ),
{
    let ghost bv = blocks_v(v@);
    let ghost n0 = text::views(notes@);
    let mut r: Vec<Block> = Vec::new();
    let mut i: usize = 0;
    assert(blocks_v(r@) =~= Seq::empty());
    assert(text::views(notes@) =~= n0 + split_notes(bv, 0));
    while i < v.len()
        invariant
            i <= v@.len(),
            bv == blocks_v(v@),
            blocks_v(r@) == split_all(bv, i as int),
            text::views(notes@) == n0 + split_notes(bv, i as int),
        decreases v@.len() - i,
    {
        let ghost r0 = blocks_v(r@);
        let ghost t0 = text::views(notes@);
        assert(bv[i as int] == v@[i as int]@);
        proof {
            tree::lemma_tree_view(v@[i as int].tree);
        }
        let mut b = v[i].dup();
        if v[i].tree.is_col && v[i].tree.col.len() >= 4 {
            b.tree = split_tree(&v[i].tree);
            let n = Line::of("note: block '").add(v[i].title.as_str()).add(
                "' was a column of ",
            ).count(v[i].tree.col.len() as u128).add(
                " items; it was split into two side-by-side columns for a balanced block (compose it that way yourself next time)",
            ).done();
            let ghost nv = n@;
            notes.push(n);
            assert(text::views(notes@) =~= t0.push(nv));
            assert(text::views(notes@) =~= n0 + split_notes(bv, i + 1));
        }
        let ghost bb = b@;
        r.push(b);
        assert(blocks_v(r@) =~= r0.push(bb));
        i += 1;
    }
    r
}

/// The blocks among the first `n` that hold parts.
pub open spec fn filled(v: Seq<BlockV>, n: int) -> Seq<BlockV>
    decreases n,
{
    if n <= 0 {
        Seq::empty()
    } else if tree::ids_of(v[n - 1].tree).len() > 0 {
        filled(v, n - 1).push(v[n - 1])
    } else {
        filled(v, n - 1)
    }
}

/// A layout with its repairs: unused units moved, tiny blocks folded or gathered, tall columns
/// split.
pub open spec fn linted(
    parts: Seq<PartInst>,
    power: Seq<Seq<char>>,
    index: SymbolIndex,
    v: Seq<BlockV>,
) -> LintV {
    if v.len() == 0 {
        LintV { v, notes: Seq::empty() }
    } else {
        let keys = key_set(v);
        let a = units_moved(parts, keys, power, index, v, keys.len() as int);
        let b = folded(
            parts,
            power,
            index,
            LintV { v: filled(a.v, a.v.len() as int), notes: a.notes },
        );
        let c = gathered(parts, b);
        LintV {
            v: split_all(c.v, c.v.len() as int),
            notes: c.notes + split_notes(c.v, c.v.len() as int),
        }
    }
}

fn drop_empty(v: &Vec<Block>) -> (r: Vec<Block>)
    ensures
        blocks_v(r@) == filled(blocks_v(v@), v@.len() as int),
{
    let ghost bv = blocks_v(v@);
    let mut r: Vec<Block> = Vec::new();
    let mut i: usize = 0;
    assert(blocks_v(r@) =~= Seq::empty());
    while i < v.len()
        invariant
            i <= v@.len(),
            bv == blocks_v(v@),
            blocks_v(r@) == filled(bv, i as int),
        decreases v@.len() - i,
    {
        assert(bv[i as int] == v@[i as int]@);
        let ghost r0 = blocks_v(r@);
        let ids = tree_ids(&v[i].tree);
        assert(text::views(ids@).len() == ids@.len());
        if ids.len() > 0 {
            r.push(v[i].dup());
            assert(blocks_v(r@) =~= r0.push(bv[i as int]));
        }
        i += 1;
    }
    r
}

/// Repairs a badly proportioned layout, and says what was done.
pub fn lint_layout(
    layout: &Vec<Block>,
    parts: &Vec<PartInst>,
    power: &Vec<String>,
    index: &SymbolIndex,
) -> (r: (Vec<Block>, Vec<String>))
    requires
        group::parts_ok(parts@),
    ensures
        (LintV { v: blocks_v(r.0@), notes: text::views(r.1@) }) == linted(
            parts@,
            text::views(power@),
            *index,
            blocks_v(layout@),
        ),
{
    let mut notes: Vec<String> = Vec::new();
    assert(text::views(notes@) =~= Seq::empty());
    let mut v = dup_blocks(layout);
    if layout.len() == 0 {
        return (v, notes);
    }
    let ghost v0 = blocks_v(layout@);
    let ghost pw = text::views(power@);
    let keys = all_keys(layout);
    let ghost ks = text::views(keys@);
    let mut i: usize = 0;
    while i < keys.len()
        invariant
            i <= keys@.len(),
            group::parts_ok(parts@),
            ks == text::views(keys@),
            pw == text::views(power@),
            (LintV { v: blocks_v(v@), notes: text::views(notes@) }) == units_moved(
                parts@,
                ks,
                pw,
                *index,
                v0,
                i as int,
            ),
        decreases keys@.len() - i,
    {
        assert(ks[i as int] == keys@[i as int]@);
        move_unit(parts, &keys, power, index, &mut v, &mut notes, keys[i].as_str());
        i += 1;
    }
    assert(ks.len() == keys@.len());
    assert(blocks_v(v@).len() == v@.len());
    let mut v = drop_empty(&v);
    fold_blocks(parts, power, index, &mut v, &mut notes);
    let v = gather(parts, v, &mut notes);
    assert(blocks_v(v@).len() == v@.len());
    let r = split_columns(&v, &mut notes);
    (r, notes)
}

// ---------------------------------------------------------------- no part is lost or doubled
/// Whether every node of a tree is a part, a row or a column, and nothing else besides.
pub open spec fn proper(t: TreeV) -> bool
    decreases t,
{
    if t.style.part is Some {
        !t.is_row && !t.is_col && t.row.len() == 0 && t.col.len() == 0
    } else if t.is_row {
        !t.is_col && t.col.len() == 0 && forall|i: int|
            0 <= i < t.row.len() ==> proper(#[trigger] t.row[i])
    } else if t.is_col {
        t.row.len() == 0 && forall|i: int| 0 <= i < t.col.len() ==> proper(#[trigger] t.col[i])
    } else {
        t.row.len() == 0 && t.col.len() == 0
    }
}

pub open spec fn one_if(b: bool) -> int {
    if b {
        1
    } else {
        0
    }
}

/// How often a part stands in a tree.
pub open spec fn count(t: TreeV, x: Seq<char>) -> int
    decreases t, 0nat,
{
    one_if(t.style.part == Some(x)) + count_in(t.row, t.row.len(), x) + count_in(
        t.col,
        t.col.len(),
        x,
    )
}

/// How often a part stands in the first `n` trees of a list.
pub open spec fn count_in(v: Seq<TreeV>, n: nat, x: Seq<char>) -> int
    decreases v, n,
{
    if n == 0 || n > v.len() {
        0
    } else {
        count_in(v, (n - 1) as nat, x) + count(v[n - 1], x)
    }
}

/// How often a part stands in the first `n` blocks.
pub open spec fn total(v: Seq<BlockV>, n: int, x: Seq<char>) -> int
    decreases n,
{
    if n <= 0 {
        0
    } else {
        total(v, n - 1, x) + count(v[n - 1].tree, x)
    }
}

pub open spec fn all_proper(v: Seq<BlockV>) -> bool {
    forall|i: int| 0 <= i < v.len() ==> proper((#[trigger] v[i]).tree)
}

proof fn lemma_count_ids(t: TreeV, x: Seq<char>)
    ensures
        count(t, x) >= 0,
        count(t, x) > 0 <==> tree::ids_of(t).contains(x),
    decreases t, 0nat,
{
    lemma_count_ids_in(t.row, t.row.len(), x);
    lemma_count_ids_in(t.col, t.col.len(), x);
    let own = match t.style.part {
        Some(p) => seq![p],
        None => Seq::<Seq<char>>::empty(),
    };
    let a = tree::ids_in(t.row, t.row.len());
    let b = tree::ids_in(t.col, t.col.len());
    lemma_contains(own, a, x);
    lemma_contains(own + a, b, x);
    if t.style.part == Some(x) {
        assert(own[0] == x);
    }
}

proof fn lemma_count_ids_in(v: Seq<TreeV>, n: nat, x: Seq<char>)
    requires
        n <= v.len(),
    ensures
        count_in(v, n, x) >= 0,
        count_in(v, n, x) > 0 <==> tree::ids_in(v, n).contains(x),
    decreases v, n,
{
    if n > 0 {
        lemma_count_ids_in(v, (n - 1) as nat, x);
        lemma_count_ids(v[n - 1], x);
        lemma_contains(tree::ids_in(v, (n - 1) as nat), tree::ids_of(v[n - 1]), x);
    }
}

proof fn lemma_contains(a: Seq<Seq<char>>, b: Seq<Seq<char>>, x: Seq<char>)
    ensures
        (a + b).contains(x) <==> a.contains(x) || b.contains(x),
{
    let c = a + b;
    if a.contains(x) {
        let i = choose|i: int| 0 <= i < a.len() && a[i] == x;
        assert(c[i] == x);
    }
    if b.contains(x) {
        let i = choose|i: int| 0 <= i < b.len() && b[i] == x;
        assert(c[a.len() + i] == x);
    }
    if c.contains(x) {
        let i = choose|i: int| 0 <= i < c.len() && c[i] == x;
        if i < a.len() {
            assert(a[i] == x);
        } else {
            assert(b[i - a.len()] == x);
        }
    }
}

proof fn lemma_same_prefix(a: Seq<TreeV>, b: Seq<TreeV>, n: nat, x: Seq<char>)
    requires
        n <= a.len(),
        n <= b.len(),
        forall|i: int| 0 <= i < n ==> #[trigger] a[i] == b[i],
    ensures
        count_in(a, n, x) == count_in(b, n, x),
    decreases n,
{
    if n > 0 {
        lemma_same_prefix(a, b, (n - 1) as nat, x);
        assert(a[n - 1] == b[n - 1]);
    }
}

proof fn lemma_count_update(v: Seq<TreeV>, i: int, t: TreeV, n: nat, x: Seq<char>)
    requires
        0 <= i < v.len(),
        n <= v.len(),
    ensures
        count_in(v.update(i, t), n, x) == count_in(v, n, x) + (if i < n {
            count(t, x) - count(v[i], x)
        } else {
            0
        }),
    decreases n,
{
    if n > 0 {
        lemma_count_update(v, i, t, (n - 1) as nat, x);
    }
}

proof fn lemma_count_remove(v: Seq<TreeV>, i: int, n: nat, x: Seq<char>)
    requires
        0 <= i < n <= v.len(),
    ensures
        count_in(v.remove(i), (n - 1) as nat, x) == count_in(v, n, x) - count(v[i], x),
    decreases n,
{
    if n - 1 == i {
        lemma_same_prefix(v.remove(i), v, (n - 1) as nat, x);
    } else {
        lemma_count_remove(v, i, (n - 1) as nat, x);
        assert(v.remove(i)[n - 2] == v[n - 1]);
    }
}

proof fn lemma_taken(t: TreeV, key: Seq<char>, x: Seq<char>)
    requires
        proper(t),
    ensures
        ({
            let r = tree::taken(t, key);
            match r.got {
                Some(g) => count(r.t, x) + count(g, x) == count(t, x) && proper(r.t) && proper(g)
                    && g.style.part == Some(key),
                None => true,
            }
        }),
    decreases t, 0nat,
{
    lemma_taken_from(t.row, key, t.row.len(), x);
    lemma_taken_from(t.col, key, t.col.len(), x);
}

proof fn lemma_taken_from(v: Seq<TreeV>, key: Seq<char>, n: nat, x: Seq<char>)
    requires
        n <= v.len(),
        forall|i: int| 0 <= i < v.len() ==> proper(#[trigger] v[i]),
    ensures
        ({
            let r = tree::taken_from(v, key, n);
            match r.got {
                Some(g) => count_in(r.v, r.v.len(), x) + count(g, x) == count_in(v, v.len(), x)
                    && (forall|i: int| 0 <= i < r.v.len() ==> proper(#[trigger] r.v[i])) && proper(g)
                    && g.style.part == Some(key) && v.len() > 0,
                None => true,
            }
        }),
    decreases v, n,
{
    if n > 0 {
        let i = v.len() - n;
        assert(proper(v[i]));
        if v[i].style.part == Some(key) {
            lemma_count_remove(v, i, v.len(), x);
            assert forall|j: int| 0 <= j < v.remove(i).len() implies proper(
                #[trigger] v.remove(i)[j],
            ) by {
                if j < i {
                    assert(proper(v[j]));
                } else {
                    assert(proper(v[j + 1]));
                }
            }
        } else {
            lemma_taken(v[i], key, x);
            let c = tree::taken(v[i], key);
            if c.got is Some {
                lemma_count_update(v, i, c.t, v.len(), x);
            } else {
                lemma_taken_from(v, key, (n - 1) as nat, x);
            }
        }
    }
}

proof fn lemma_pruned(t: TreeV, x: Seq<char>)
    requires
        proper(t),
    ensures
        proper(tree::pruned(t).t),
        count(tree::pruned(t).t, x) == count(t, x),
        !tree::pruned(t).left ==> count(t, x) == 0,
    decreases t, 0nat,
{
    if t.is_row {
        lemma_pruned_list(t.row, t.row.len(), x);
    } else if t.is_col {
        lemma_pruned_list(t.col, t.col.len(), x);
    }
}

proof fn lemma_pruned_list(v: Seq<TreeV>, n: nat, x: Seq<char>)
    requires
        n <= v.len(),
        forall|i: int| 0 <= i < v.len() ==> proper(#[trigger] v[i]),
    ensures
        ({
            let r = tree::pruned_list(v, n);
            &&& forall|i: int| 0 <= i < r.len() ==> proper(#[trigger] r[i])
            &&& count_in(r, r.len(), x) == count_in(v, n, x)
        }),
    decreases v, n,
{
    if n > 0 {
        lemma_pruned_list(v, (n - 1) as nat, x);
        assert(proper(v[n - 1]));
        lemma_pruned(v[n - 1], x);
        let s = tree::pruned_list(v, (n - 1) as nat);
        let r = tree::pruned_list(v, n);
        if tree::pruned(v[n - 1]).left {
            lemma_same_prefix(r, s, s.len(), x);
        }
    }
}

proof fn lemma_replaced(t: TreeV, key: Seq<char>, by: TreeV, x: Seq<char>)
    requires
        proper(t),
        proper(by),
        t.style.part != Some(key),
    ensures
        ({
            let r = tree::replaced(t, key, by);
            &&& r.done ==> proper(r.t) && count(r.t, x) == count(t, x) - one_if(x == key) + count(
                by,
                x,
            )
            &&& !r.done ==> count(t, key) == 0
        }),
    decreases t, 0nat,
{
    lemma_replaced_in(t.row, key, by, t.row.len(), x);
    lemma_replaced_in(t.col, key, by, t.col.len(), x);
}

proof fn lemma_replaced_in(v: Seq<TreeV>, key: Seq<char>, by: TreeV, n: nat, x: Seq<char>)
    requires
        n <= v.len(),
        proper(by),
        forall|i: int| 0 <= i < v.len() ==> proper(#[trigger] v[i]),
    ensures
        ({
            let r = tree::replaced_in(v, key, by, n);
            &&& r.done ==> v.len() > 0 && r.v.len() == v.len() && (forall|i: int|
                0 <= i < r.v.len() ==> proper(#[trigger] r.v[i])) && count_in(r.v, r.v.len(), x)
                == count_in(v, v.len(), x) - one_if(x == key) + count(by, x)
            &&& !r.done ==> count_in(v, v.len(), key) == count_in(v, (v.len() - n) as nat, key)
        }),
    decreases v, n,
{
    if n > 0 {
        let i = v.len() - n;
        assert(proper(v[i]));
        if v[i].style.part == Some(key) {
            lemma_count_update(v, i, by, v.len(), x);
        } else {
            lemma_replaced(v[i], key, by, x);
            let c = tree::replaced(v[i], key, by);
            if c.done {
                lemma_count_update(v, i, c.t, v.len(), x);
            } else {
                lemma_replaced_in(v, key, by, (n - 1) as nat, x);
            }
        }
    }
}

proof fn lemma_total_update(v: Seq<BlockV>, i: int, b: BlockV, n: int, x: Seq<char>)
    requires
        0 <= i < v.len(),
        n <= v.len(),
    ensures
        total(v.update(i, b), n, x) == total(v, n, x) + (if i < n {
            count(b.tree, x) - count(v[i].tree, x)
        } else {
            0
        }),
    decreases n,
{
    if n > 0 {
        lemma_total_update(v, i, b, n - 1, x);
    }
}

proof fn lemma_total_prefix(a: Seq<BlockV>, b: Seq<BlockV>, n: int, x: Seq<char>)
    requires
        n <= a.len(),
        n <= b.len(),
        forall|i: int| 0 <= i < n ==> #[trigger] a[i] == b[i],
    ensures
        total(a, n, x) == total(b, n, x),
    decreases n,
{
    if n > 0 {
        lemma_total_prefix(a, b, n - 1, x);
        assert(a[n - 1] == b[n - 1]);
    }
}

proof fn lemma_total_remove(v: Seq<BlockV>, i: int, n: int, x: Seq<char>)
    requires
        0 <= i < n <= v.len(),
    ensures
        total(v.remove(i), n - 1, x) == total(v, n, x) - count(v[i].tree, x),
    decreases n,
{
    if n - 1 == i {
        lemma_total_prefix(v.remove(i), v, n - 1, x);
    } else {
        lemma_total_remove(v, i, n - 1, x);
        assert(v.remove(i)[n - 2] == v[n - 1]);
    }
}

proof fn lemma_draw_out(v: Seq<BlockV>, key: Seq<char>, i: int, x: Seq<char>)
    requires
        all_proper(v),
        0 <= i,
    ensures
        ({
            let d = draw_out(v, key, i);
            match d.leaf {
                Some(l) => all_proper(d.v) && proper(l) && l.style.part == Some(key) && d.v.len()
                    == v.len() && total(d.v, d.v.len() as int, x) + count(l, x) == total(
                    v,
                    v.len() as int,
                    x,
                ),
                None => true,
            }
        }),
    decreases v.len() - i,
{
    if i < v.len() {
        if v[i].tree.style.part == Some(key) {
            lemma_draw_out(v, key, i + 1, x);
        } else {
            let t = tree::taken(v[i].tree, key);
            assert(proper(v[i].tree));
            lemma_taken(v[i].tree, key, x);
            if t.got is Some {
                lemma_pruned(t.t, x);
                lemma_total_update(
                    v,
                    i,
                    with_tree(v[i], tree::pruned(t.t).t),
                    v.len() as int,
                    x,
                );
            } else {
                lemma_draw_out(v, key, i + 1, x);
            }
        }
    }
}

proof fn lemma_beside(a: TreeV, b: TreeV, x: Seq<char>)
    requires
        proper(a),
        proper(b),
    ensures
        proper(beside(a, b)),
        count(beside(a, b), x) == count(a, x) + count(b, x),
{
    lemma_pair(a, b, x);
    let r = beside(a, b).row;
    assert(r[0] == a && r[1] == b);
    assert(count_in(beside(a, b).col, 0, x) == 0);
}

proof fn lemma_pair(a: TreeV, b: TreeV, x: Seq<char>)
    ensures
        count_in(seq![a, b], 2, x) == count(a, x) + count(b, x),
{
    reveal_with_fuel(count_in, 3);
    let s = seq![a, b];
    assert(s[0] == a && s[1] == b);
}

proof fn lemma_put_beside(v: Seq<BlockV>, pw: Seq<char>, leaf: TreeV, i: int, x: Seq<char>)
    requires
        all_proper(v),
        proper(leaf),
        0 <= i <= v.len(),
    ensures
        ({
            let r = put_beside(v, pw, leaf, i);
            total(v, i, pw) < total(v, v.len() as int, pw) ==> all_proper(r) && r.len() == v.len()
                && total(r, r.len() as int, x) == total(v, v.len() as int, x) + count(leaf, x)
        }),
    decreases v.len() - i,
{
    if i < v.len() {
        assert(proper(v[i].tree));
        if v[i].tree.style.part == Some(pw) {
            lemma_beside(v[i].tree, leaf, x);
            lemma_total_update(
                v,
                i,
                with_tree(v[i], beside(v[i].tree, leaf)),
                v.len() as int,
                x,
            );
        } else {
            let one = TreeV::leaf(pw);
            assert(count_in(one.row, 0, x) == 0 && count_in(one.col, 0, x) == 0);
            assert(count(one, x) == one_if(x == pw));
            lemma_beside(one, leaf, x);
            let r = tree::replaced(v[i].tree, pw, beside(one, leaf));
            lemma_replaced(v[i].tree, pw, beside(one, leaf), x);
            if r.done {
                lemma_total_update(v, i, with_tree(v[i], r.t), v.len() as int, x);
            } else {
                lemma_put_beside(v, pw, leaf, i + 1, x);
            }
        }
    }
}

proof fn lemma_power_key(
    parts: Seq<PartInst>,
    keys: Seq<Seq<char>>,
    power: Seq<Seq<char>>,
    index: SymbolIndex,
    key: Seq<char>,
    i: int,
)
    requires
        0 <= i,
    ensures
        ({
            let j = power_key(parts, keys, power, index, key, i);
            i <= j && (j < keys.len() ==> keys[j] != key)
        }),
    decreases keys.len() - i,
{
    if i < keys.len() {
        lemma_power_key(parts, keys, power, index, key, i + 1);
    }
}

proof fn lemma_units_moved(
    parts: Seq<PartInst>,
    keys: Seq<Seq<char>>,
    power: Seq<Seq<char>>,
    index: SymbolIndex,
    v: Seq<BlockV>,
    n: int,
    x: Seq<char>,
)
    requires
        all_proper(v),
        0 <= n <= keys.len(),
        forall|j: int| 0 <= j < keys.len() ==> total(v, v.len() as int, #[trigger] keys[j]) > 0,
    ensures
        ({
            let r = units_moved(parts, keys, power, index, v, n).v;
            all_proper(r) && r.len() == v.len() && total(r, r.len() as int, x) == total(
                v,
                v.len() as int,
                x,
            )
        }),
    decreases n,
{
    if n > 0 {
        let s = units_moved(parts, keys, power, index, v, n - 1);
        lemma_units_moved(parts, keys, power, index, v, n - 1, x);
        let key = keys[n - 1];
        let j = power_key(parts, keys, power, index, key, 0);
        lemma_power_key(parts, keys, power, index, key, 0);
        if unused(parts, key) && j < keys.len() {
            let pw = keys[j];
            lemma_units_moved(parts, keys, power, index, v, n - 1, pw);
            lemma_draw_out(s.v, key, 0, x);
            lemma_draw_out(s.v, key, 0, pw);
            let d = draw_out(s.v, key, 0);
            if let Some(l) = d.leaf {
                assert(count_in(l.row, 0, pw) == 0 && count_in(l.col, 0, pw) == 0);
                assert(count(l, pw) == 0);
                assert(total(v, v.len() as int, keys[j]) > 0);
                lemma_put_beside(d.v, pw, l, 0, x);
            }
        }
    }
}

proof fn lemma_keys(v: Seq<BlockV>, n: int, x: Seq<char>)
    requires
        0 <= n <= v.len(),
    ensures
        total(v, n, x) >= 0,
        keys_of(v, n).contains(x) ==> total(v, n, x) > 0,
    decreases n,
{
    if n > 0 {
        lemma_keys(v, n - 1, x);
        lemma_count_ids(v[n - 1].tree, x);
        lemma_contains(keys_of(v, n - 1), tree::ids_of(v[n - 1].tree), x);
    }
}

proof fn lemma_filled(v: Seq<BlockV>, n: int, x: Seq<char>)
    requires
        all_proper(v),
        0 <= n <= v.len(),
    ensures
        all_proper(filled(v, n)),
        filled(v, n).len() <= n,
        total(filled(v, n), filled(v, n).len() as int, x) == total(v, n, x),
    decreases n,
{
    if n > 0 {
        lemma_filled(v, n - 1, x);
        lemma_count_ids(v[n - 1].tree, x);
        let s = filled(v, n - 1);
        let r = filled(v, n);
        assert(proper(v[n - 1].tree));
        if tree::ids_of(v[n - 1].tree).len() > 0 {
            lemma_total_prefix(r, s, s.len() as int, x);
        } else {
            assert(!tree::ids_of(v[n - 1].tree).contains(x));
        }
    }
}

proof fn lemma_joined(t: TreeV, b: TreeV, x: Seq<char>)
    requires
        proper(t),
        proper(b),
    ensures
        proper(joined_tree(t, b)),
        count(joined_tree(t, b), x) == count(t, x) + count(b, x),
{
    lemma_pair(t, b, x);
    let s = seq![t, b];
    assert(s[0] == t && s[1] == b);
    let j = joined_tree(t, b);
    if t.is_row && t.row.len() < 3 {
        lemma_same_prefix(j.row, t.row, t.row.len(), x);
    } else {
        assert(count_in(Seq::empty(), 0, x) == 0);
    }
}

proof fn lemma_best_target(
    parts: Seq<PartInst>,
    power: Seq<Seq<char>>,
    index: SymbolIndex,
    v: Seq<BlockV>,
    i: int,
    n: int,
)
    requires
        n <= usize::MAX,
    ensures
        best_target(parts, power, index, v, i, n).0 is Some ==> best_target(
            parts,
            power,
            index,
            v,
            i,
            n,
        ).0->0 as int != i,
    decreases n,
{
    if n > 0 {
        lemma_best_target(parts, power, index, v, i, n - 1);
    }
}

proof fn lemma_first_fold(
    parts: Seq<PartInst>,
    power: Seq<Seq<char>>,
    index: SymbolIndex,
    v: Seq<BlockV>,
    i: int,
)
    requires
        0 <= i,
    ensures
        ({
            let k = first_fold(parts, power, index, v, i);
            i <= k && (k < v.len() ==> best_target(
                parts,
                power,
                index,
                v,
                k,
                v.len() as int,
            ).0 is Some)
        }),
    decreases v.len() - i,
{
    if i < v.len() {
        lemma_first_fold(parts, power, index, v, i + 1);
    }
}

proof fn lemma_folded(
    parts: Seq<PartInst>,
    power: Seq<Seq<char>>,
    index: SymbolIndex,
    s: LintV,
    x: Seq<char>,
)
    requires
        all_proper(s.v),
        s.v.len() <= usize::MAX,
    ensures
        ({
            let r = folded(parts, power, index, s).v;
            all_proper(r) && total(r, r.len() as int, x) == total(s.v, s.v.len() as int, x)
        }),
    decreases s.v.len(),
{
    let i = first_fold(parts, power, index, s.v, 0);
    let j = best_target(parts, power, index, s.v, i, s.v.len() as int).0->0 as int;
    if !(s.v.len() <= 1 || i < 0 || i >= s.v.len() || j >= s.v.len()) {
        let n = s.v.len() as int;
        let b = s.v[i];
        let t = s.v[j];
        lemma_first_fold(parts, power, index, s.v, 0);
        lemma_best_target(parts, power, index, s.v, i, n);
        assert(proper(b.tree) && proper(t.tree));
        lemma_joined(t.tree, b.tree, x);
        let u = s.v.update(j, with_tree(t, joined_tree(t.tree, b.tree)));
        lemma_total_update(s.v, j, with_tree(t, joined_tree(t.tree, b.tree)), n, x);
        lemma_total_remove(u, i, n, x);
        assert(u[i] == b);
        let next = LintV {
            v: u.remove(i),
            notes: s.notes.push(fold_note(b.title, id_set(b).len(), t.title)),
        };
        assert forall|k: int| 0 <= k < next.v.len() implies proper((#[trigger] next.v[k]).tree) by {
            let q = if k < i { k } else { k + 1 };
            assert(next.v[k] == u[q]);
            if q != j {
                assert(proper(s.v[q].tree));
            }
        }
        lemma_folded(parts, power, index, next, x);
    }
}

proof fn lemma_sifted(parts: Seq<PartInst>, v: Seq<BlockV>, n: int, x: Seq<char>)
    requires
        all_proper(v),
        0 <= n <= v.len(),
    ensures
        ({
            let a = sifted(parts, v, true, n);
            let b = sifted(parts, v, false, n);
            &&& all_proper(a) && all_proper(b)
            &&& total(a, a.len() as int, x) + total(b, b.len() as int, x) == total(v, n, x)
        }),
    decreases n,
{
    if n > 0 {
        lemma_sifted(parts, v, n - 1, x);
        assert(proper(v[n - 1].tree));
        let want = tiny(parts, v[n - 1]);
        let s = sifted(parts, v, want, n - 1);
        let r = sifted(parts, v, want, n);
        lemma_total_prefix(r, s, s.len() as int, x);
    }
}

proof fn lemma_trees(v: Seq<BlockV>, n: int, x: Seq<char>)
    requires
        0 <= n <= v.len(),
    ensures
        count_in(trees_of(v), n as nat, x) == total(v, n, x),
    decreases n,
{
    if n > 0 {
        lemma_trees(v, n - 1, x);
    }
}

proof fn lemma_shifted(a: Seq<TreeV>, b: Seq<TreeV>, k: int, n: nat, x: Seq<char>)
    requires
        0 <= k,
        n <= b.len(),
        k + n <= a.len(),
        forall|i: int| 0 <= i < n ==> #[trigger] b[i] == a[k + i],
    ensures
        count_in(a, (k + n) as nat, x) == count_in(a, k as nat, x) + count_in(b, n, x),
    decreases n,
{
    if n > 0 {
        lemma_shifted(a, b, k, (n - 1) as nat, x);
        assert(b[n - 1] == a[k + n - 1]);
    }
}

proof fn lemma_fours(v: Seq<TreeV>, gap: int, align: Seq<char>, n: nat, x: Seq<char>)
    requires
        forall|i: int| 0 <= i < v.len() ==> proper(#[trigger] v[i]),
        n <= (v.len() + 3) / 4,
    ensures
        count_in(fours(v, gap, align), n, x) == count_in(
            v,
            geom::lo(4 * n as int, v.len() as int) as nat,
            x,
        ),
        forall|i: int| 0 <= i < n ==> proper(#[trigger] fours(v, gap, align)[i]),
    decreases n,
{
    if n > 0 {
        lemma_fours(v, gap, align, (n - 1) as nat, x);
        let k = 4 * (n - 1);
        let f = four_at(v, n - 1);
        assert(k < v.len());
        lemma_shifted(v, f, k, f.len(), x);
        let r = fours(v, gap, align)[n - 1];
        assert(r.row == f);
        assert(count_in(r.col, 0, x) == 0);
        assert(k + f.len() == geom::lo(4 * n as int, v.len() as int));
        assert(geom::lo(k, v.len() as int) == k);
        assert(count(r, x) == count_in(f, f.len(), x));
        assert forall|i: int| 0 <= i < f.len() implies proper(#[trigger] f[i]) by {
            assert(proper(v[k + i]));
        }
    }
}

proof fn lemma_gathered(parts: Seq<PartInst>, s: LintV, x: Seq<char>)
    requires
        all_proper(s.v),
    ensures
        ({
            let r = gathered(parts, s).v;
            all_proper(r) && total(r, r.len() as int, x) == total(s.v, s.v.len() as int, x)
        }),
{
    let n = s.v.len() as int;
    let small = sifted(parts, s.v, true, n);
    let rest = sifted(parts, s.v, false, n);
    lemma_sifted(parts, s.v, n, x);
    if small.len() >= 2 {
        let r = gathered(parts, s).v;
        let ts = trees_of(small);
        lemma_trees(small, small.len() as int, x);
        assert forall|i: int| 0 <= i < ts.len() implies proper(#[trigger] ts[i]) by {
            assert(proper(small[i].tree));
        }
        let f = fours(ts, 1_270_000, "start"@);
        lemma_fours(ts, 1_270_000, "start"@, f.len(), x);
        let t = r.last().tree;
        assert(t.col == f);
        assert(count_in(t.row, 0, x) == 0);
        lemma_total_prefix(r, rest, rest.len() as int, x);
    }
}

proof fn lemma_two_columns(t: TreeV, x: Seq<char>)
    requires
        proper(t),
        is_tall_col(t),
    ensures
        proper(two_columns(t)),
        count(two_columns(t), x) == count(t, x),
{
    let n = t.col.len() as int;
    let half = (n + 1) / 2;
    let a = TreeV::col_of(t.col.take(half), t.style.gap, "center"@);
    let b = TreeV::col_of(t.col.skip(half), t.style.gap, "center"@);
    assert forall|i: int| 0 <= i < a.col.len() implies proper(#[trigger] a.col[i]) by {
        assert(proper(t.col[i]));
    }
    assert forall|i: int| 0 <= i < b.col.len() implies proper(#[trigger] b.col[i]) by {
        assert(proper(t.col[half + i]));
    }
    lemma_same_prefix(t.col.take(half), t.col, half as nat, x);
    lemma_shifted(t.col, t.col.skip(half), half, (n - half) as nat, x);
    lemma_pair(a, b, x);
    let s = seq![a, b];
    assert(s[0] == a && s[1] == b);
    assert(count_in(Seq::empty(), 0, x) == 0);
    let r = two_columns(t);
    assert(r.row == s);
    assert(proper(a) && proper(b));
    assert forall|i: int| 0 <= i < r.row.len() implies proper(#[trigger] r.row[i]) by {
        assert(i == 0 || i == 1);
    }
}

proof fn lemma_split_all(v: Seq<BlockV>, n: int, x: Seq<char>)
    requires
        all_proper(v),
        0 <= n <= v.len(),
    ensures
        all_proper(split_all(v, n)),
        split_all(v, n).len() == n,
        total(split_all(v, n), n, x) == total(v, n, x),
    decreases n,
{
    if n > 0 {
        lemma_split_all(v, n - 1, x);
        let s = split_all(v, n - 1);
        let r = split_all(v, n);
        assert(proper(v[n - 1].tree));
        if is_tall_col(v[n - 1].tree) {
            lemma_two_columns(v[n - 1].tree, x);
        }
        lemma_total_prefix(r, s, n - 1, x);
    }
}

/// The repairs of a layout lose no part and double none: each stands in the repaired blocks as
/// often as it stood in the blocks.
pub proof fn repairs_keep_every_part(
    parts: Seq<PartInst>,
    power: Seq<Seq<char>>,
    index: SymbolIndex,
    v: Seq<BlockV>,
    x: Seq<char>,
)
    requires
        all_proper(v),
        v.len() <= usize::MAX,
    ensures
        ({
            let r = linted(parts, power, index, v).v;
            total(r, r.len() as int, x) == total(v, v.len() as int, x)
        }),
{
    if v.len() > 0 {
        let keys = key_set(v);
        let ks = keys_of(v, v.len() as int);
        names::distinct_holds_each_once(ks, ks.len() as int);
        assert(ks.take(ks.len() as int) =~= ks);
        assert forall|j: int| 0 <= j < keys.len() implies total(
            v,
            v.len() as int,
            #[trigger] keys[j],
        ) > 0 by {
            assert(keys.contains(keys[j]));
            lemma_keys(v, v.len() as int, keys[j]);
        }
        let a = units_moved(parts, keys, power, index, v, keys.len() as int);
        lemma_units_moved(parts, keys, power, index, v, keys.len() as int, x);
        lemma_filled(a.v, a.v.len() as int, x);
        let f = LintV { v: filled(a.v, a.v.len() as int), notes: a.notes };
        lemma_folded(parts, power, index, f, x);
        let b = folded(parts, power, index, f);
        lemma_gathered(parts, b, x);
        let c = gathered(parts, b);
        lemma_split_all(c.v, c.v.len() as int, x);
    }
}

} // verus!
