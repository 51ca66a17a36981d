//! Reports on a sheet: its netlist as text, how it differs from the intended one, and the findings
//! of an outside rule check.
use crate::json;
use crate::json::{Json, JsonV};
use crate::model_json;
use crate::model_json::{divide_even, list_of, object_of};
use crate::names;
use crate::names::{add_distinct, has_name, name_set, sort_names};
use crate::netlist;
use crate::number;
use crate::number::{fmt_num, read_number, NUM_MAX};
use crate::order;
use crate::order::order_by_name;
use crate::order_map;
use crate::pinref;
use crate::pinref::field_text;
use crate::symlib::{Pin, SymbolIndex, SymbolInfo};
use crate::text;
use crate::text::{ends_with, join, same, starts_with, Line};
use vstd::prelude::*;

verus! {

pub type NetListV = Seq<(Seq<char>, Seq<Seq<char>>)>;

// ---------------------------------------------------------------- netlist as text
pub open spec fn net_line(e: (Seq<char>, Seq<Seq<char>>)) -> Seq<char> {
    e.0 + ": "@ + text::joined(e.1, " "@)
}

pub open spec fn numbered(nets: NetListV) -> Seq<i64> {
    Seq::new(
        nets.len(),
        |i: int|
            if text::starts(nets[i].0, "N$"@) {
                1i64
            } else {
                0i64
            },
    )
}

pub open spec fn net_names(nets: NetListV) -> Seq<Seq<char>> {
    Seq::new(nets.len(), |i: int| nets[i].0)
}

/// One line per net in the order of names, nets without a name last.
pub open spec fn net_lines(nets: NetListV) -> Seq<Seq<char>> {
    let o = order::by_name(numbered(nets), net_names(nets));
    Seq::new(nets.len(), |i: int| net_line(nets[o[i]]))
}

/// The lines of a netlist up to a limit, and how many are left out.
pub open spec fn netlist_as_text(nets: NetListV, limit: int) -> Seq<char> {
    let v = net_lines(nets);
    text::joined(
        if v.len() > limit {
            v.take(limit).push(
                "... ("@ + text::digits((v.len() - limit) as nat) + " more nets)"@,
            )
        } else {
            v
        },
        "\n"@,
    )
}

/// The netlist as text.
pub fn netlist_text(nets: &Vec<(String, Vec<String>)>, limit: usize) -> (r: String)
    ensures
        r@ == netlist_as_text(netlist::nets_v(nets@), limit as int),
{
    let ghost nv = netlist::nets_v(nets@);
    let mut counts: Vec<i64> = Vec::new();
    let mut called: Vec<String> = Vec::new();
    let mut i: usize = 0;
    while i < nets.len()
        invariant
            i <= nets@.len(),
            nv == netlist::nets_v(nets@),
            counts@.len() == i,
            called@.len() == i,
            forall|k: int| 0 <= k < i ==> #[trigger] counts@[k] == numbered(nv)[k],
            forall|k: int| 0 <= k < i ==> (#[trigger] called@[k])@ == nv[k].0,
        decreases nets@.len() - i,
    {
        assert(nv[i as int].0 == nets@[i as int].0@);
        let c: i64 = if starts_with(nets[i].0.as_str(), "N$") { 1 } else { 0 };
        counts.push(c);
        called.push(nets[i].0.clone());
        i += 1;
    }
    assert(counts@ =~= numbered(nv));
    assert(text::views(called@) =~= net_names(nv));
    let o = order_by_name(&counts, &called);
    let ghost all = net_lines(nv);
    let mut lines: Vec<String> = Vec::new();
    i = 0;
    while i < o.len() && i < limit
        invariant
            i <= o@.len(),
            i <= limit,
            nv == netlist::nets_v(nets@),
            o@.len() == nets@.len(),
            all == net_lines(nv),
            order::as_ints(o@) == order::by_name(numbered(nv), net_names(nv)),
            forall|i: int| 0 <= i < o@.len() ==> #[trigger] o@[i] < nets@.len(),
            lines@.len() == i,
            forall|k: int| 0 <= k < i ==> (#[trigger] lines@[k])@ == all[k],
        decreases o@.len() - i,
    {
        let k: usize = o[i];
        assert(order::as_ints(o@)[i as int] == k);
        assert(nv[k as int] == (nets@[k as int].0@, text::views(nets@[k as int].1@)));
        let m = join(&nets[k].1, " ");
        let t = Line::of(nets[k].0.as_str()).add(": ").add(m.as_str()).done();
        assert(t@ == all[i as int]);
        lines.push(t);
        i += 1;
    }
    if o.len() > limit {
        assert(text::views(lines@) =~= all.take(limit as int));
        let t = Line::of("... (").count((o.len() - limit) as u128).add(" more nets)").done();
        let ghost l0 = text::views(lines@);
        let ghost tv = t@;
        lines.push(t);
        assert(text::views(lines@) =~= l0.push(tv));
    } else {
        assert(text::views(lines@) =~= all);
    }
    join(&lines, "\n")
}

/// The last net from the end with a name.
pub open spec fn last_net(nets: NetListV, name: Seq<char>, n: int) -> int
    decreases n,
{
    if n <= 0 {
        -1
    } else if nets[n - 1].0 == name {
        n - 1
    } else {
        last_net(nets, name, n - 1)
    }
}

/// Nets by name: names in order, each with the set of its pins; of nets that share a name the last
/// counts.
pub open spec fn nets_by_name(nets: NetListV) -> NetListV {
    let v = names::distinct(net_names(nets), nets.len() as int);
    Seq::new(
        v.len(),
        |i: int|
            {
                let m = nets[last_net(nets, v[i], nets.len() as int)].1;
                (v[i], names::distinct(m, m.len() as int))
            },
    )
}

/// Whether names stand in ascending order, each once.
pub open spec fn ascending(s: Seq<Seq<char>>) -> bool {
    forall|i: int, j: int| 0 <= i < j < s.len() ==> text::before(#[trigger] s[i], #[trigger] s[j])
}

/// Whether a list of nets is sorted: the names ascend, and so do the pins of each net.
pub open spec fn tidy(nets: NetListV) -> bool {
    &&& ascending(net_names(nets))
    &&& forall|i: int| 0 <= i < nets.len() ==> ascending((#[trigger] nets[i]).1)
}

proof fn lemma_distinct_ascends(v: Seq<Seq<char>>)
    ensures
        ascending(names::distinct(v, v.len() as int)),
{
    let s = names::distinct(v, v.len() as int);
    names::distinct_holds_each_once(v, v.len() as int);
    assert forall|i: int, j: int| 0 <= i < j < s.len() implies text::before(
        #[trigger] s[i],
        #[trigger] s[j],
    ) by {
        text::before_total(s[i], s[j]);
    }
}

/// Nets by name are sorted, whatever order they were found in.
pub proof fn nets_by_name_are_sorted(nets: NetListV)
    ensures
        tidy(nets_by_name(nets)),
{
    let r = nets_by_name(nets);
    let v = names::distinct(net_names(nets), nets.len() as int);
    lemma_distinct_ascends(net_names(nets));
    assert(net_names(r) =~= v);
    assert forall|i: int| 0 <= i < r.len() implies ascending((#[trigger] r[i]).1) by {
        lemma_distinct_ascends(nets[last_net(nets, v[i], nets.len() as int)].1);
    }
}

fn find_last(nets: &Vec<(String, Vec<String>)>, name: &str) -> (r: usize)
    requires
        net_names(netlist::nets_v(nets@)).contains(name@),
    ensures
        r == last_net(netlist::nets_v(nets@), name@, nets@.len() as int),
        r < nets@.len(),
{
    let ghost nv = netlist::nets_v(nets@);
    let mut i: usize = nets.len();
    while i > 0
        invariant
            i <= nets@.len(),
            nv == netlist::nets_v(nets@),
            last_net(nv, name@, nets@.len() as int) == last_net(nv, name@, i as int),
            forall|k: int| i <= k < nets@.len() ==> (#[trigger] nv[k]).0 != name@,
        decreases i,
    {
        assert(nv[i - 1].0 == nets@[i - 1].0@);
        if same(nets[i - 1].0.as_str(), name) {
            return i - 1;
        }
        i -= 1;
    }
    proof {
        let k = choose|k: int| 0 <= k < net_names(nv).len() && net_names(nv)[k] == name@;
        assert(nv[k].0 == name@);
    }
    0
}

/// Nets by name.
pub fn netlist_map(nets: &Vec<(String, Vec<String>)>) -> (r: Vec<(String, Vec<String>)>)
    ensures
        netlist::nets_v(r@) == nets_by_name(netlist::nets_v(nets@)),
        tidy(netlist::nets_v(r@)),
{
    let ghost nv = netlist::nets_v(nets@);
    proof {
        nets_by_name_are_sorted(nv);
    }
    let mut called: Vec<String> = Vec::new();
    let mut i: usize = 0;
    while i < nets.len()
        invariant
            i <= nets@.len(),
            nv == netlist::nets_v(nets@),
            called@.len() == i,
            forall|k: int| 0 <= k < i ==> (#[trigger] called@[k])@ == nv[k].0,
        decreases nets@.len() - i,
    {
        assert(nv[i as int].0 == nets@[i as int].0@);
        called.push(nets[i].0.clone());
        i += 1;
    }
    let ghost cv = net_names(nv);
    assert(text::views(called@) =~= cv);
    let set = name_set(&called);
    let ghost sv = text::views(set@);
    proof {
        names::distinct_holds_each_once(cv, cv.len() as int);
        assert(cv.take(cv.len() as int) =~= cv);
        assert(sv.len() == set@.len());
    }
    let ghost want = nets_by_name(nv);
    let mut r: Vec<(String, Vec<String>)> = Vec::new();
    i = 0;
    while i < set.len()
        invariant
            i <= set@.len(),
            nv == netlist::nets_v(nets@),
            cv == net_names(nv),
            sv == text::views(set@),
            sv == names::distinct(cv, nv.len() as int),
            forall|y: Seq<char>| #[trigger] sv.contains(y) <==> cv.contains(y),
            want == nets_by_name(nv),
            r@.len() == i,
            forall|k: int|
                0 <= k < i ==> (#[trigger] r@[k]).0@ == want[k].0 && text::views(r@[k].1@)
                    == want[k].1,
        decreases set@.len() - i,
    {
        assert(sv[i as int] == set@[i as int]@);
        assert(sv.contains(sv[i as int]));
        let k: usize = find_last(nets, set[i].as_str());
        assert(nv[k as int] == (nets@[k as int].0@, text::views(nets@[k as int].1@)));
        assert(nv[k as int].1.len() == nets@[k as int].1@.len());
        r.push((set[i].clone(), name_set(&nets[k].1)));
        i += 1;
    }
    assert(netlist::nets_v(r@) =~= want);
    r
}

// ---------------------------------------------------------------- intended nets
/// The number of the pin that a key stands for, by number or by name; a key that no pin has stands
/// for itself.
pub open spec fn pin_number(pins: Seq<Pin>, k: Seq<char>, i: int) -> Seq<char>
    decreases pins.len() - i,
{
    if i < 0 || i >= pins.len() || pins[i].number@ == k {
        k
    } else if pins[i].name@.len() > 0 && pins[i].name@ == k {
        pins[i].number@
    } else {
        pin_number(pins, k, i + 1)
    }
}

/// The net that the design means for a pin.
pub open spec fn meant_net(spec: JsonV) -> Seq<char> {
    match spec {
        JsonV::Obj(o) => match order_map::look(o, "net"@) {
            Some(v) => match v {
                JsonV::Str(s) => s,
                _ => Seq::empty(),
            },
            None => match order_map::look(o, "power"@) {
                Some(JsonV::Str(s)) => s,
                _ => Seq::empty(),
            },
        },
        JsonV::Str(s) => s,
        _ => Seq::empty(),
    }
}

pub open spec fn no_net(s: Seq<char>) -> bool {
    s.len() == 0 || s == "nc"@ || s == "float"@
}

/// Sorted nets with one more pin in one of them.
pub open spec fn net_add(m: NetListV, net: Seq<char>, pin: Seq<char>) -> NetListV {
    let i = order_map::seek(m, net, 0);
    if i < m.len() {
        m.update(i, (net, names::set_add(m[i].1, pin)))
    } else {
        m.insert(names::spot(net_names(m), net, 0), (net, names::set_add(Seq::empty(), pin)))
    }
}

pub open spec fn part_nets(
    m: NetListV,
    id: Seq<char>,
    pins: Seq<Pin>,
    given: Seq<(Seq<char>, JsonV)>,
    n: int,
) -> NetListV
    decreases n,
{
    if n <= 0 {
        m
    } else {
        let w = part_nets(m, id, pins, given, n - 1);
        let s = meant_net(given[n - 1].1);
        if no_net(s) {
            w
        } else {
            net_add(w, s, id + "."@ + pin_number(pins, given[n - 1].0, 0))
        }
    }
}

/// A symbol that stands for a net and not for a part.
pub open spec fn is_power_part(info: SymbolInfo, lib: Seq<char>) -> bool {
    info.power || text::starts(lib, "power:"@) || text::ends(lib, ":PWR_FLAG"@)
}

/// The nets that the first `n` parts of a design name.
pub open spec fn intended_nets(parts: Seq<JsonV>, index: SymbolIndex, n: int) -> NetListV
    decreases n,
{
    if n <= 0 {
        Seq::empty()
    } else {
        let m = intended_nets(parts, index, n - 1);
        let p = parts[n - 1];
        let lib = pinref::text_field(p, "lib"@);
        match index.found(lib) {
            Some(info) => if is_power_part(*info, lib) {
                m
            } else {
                let o = match json::field(p, "pins"@) {
                    Some(v) => json::entries_of(v),
                    None => Seq::empty(),
                };
                part_nets(m, pinref::part_name(p), info.pins@, o, o.len() as int)
            },
            None => m,
        }
    }
}

/// The position of the last of the first `n` nets that holds a pin; none where no net does.
pub open spec fn net_of_pin(nets: NetListV, pin: Seq<char>, n: int) -> Option<int>
    decreases n,
{
    if n <= 0 {
        None
    } else if nets[n - 1].1.contains(pin) {
        Some(n - 1)
    } else {
        net_of_pin(nets, pin, n - 1)
    }
}

/// Pins that are connected, and the net that connects them. A pin in no net is a piece of its own.
pub type PieceListV = Seq<(Option<int>, Seq<Seq<char>>)>;

/// The first piece from `i` on of a net, or the number of pieces.
pub open spec fn piece_at(g: PieceListV, k: Option<int>, i: int) -> int
    decreases g.len() - i,
{
    if i < 0 || i >= g.len() {
        g.len() as int
    } else if g[i].0 == k {
        i
    } else {
        piece_at(g, k, i + 1)
    }
}

/// The first `n` pins grouped by the net they are in, groups in the order of their first pins.
pub open spec fn pieces_of(nets: NetListV, pins: Seq<Seq<char>>, n: int) -> PieceListV
    decreases n,
{
    if n <= 0 {
        Seq::empty()
    } else {
        let g = pieces_of(nets, pins, n - 1);
        let k = net_of_pin(nets, pins[n - 1], nets.len() as int);
        let i = piece_at(g, k, 0);
        if k is Some && i < g.len() {
            g.update(i, (k, g[i].1.push(pins[n - 1])))
        } else {
            g.push((k, seq![pins[n - 1]]))
        }
    }
}

/// Whether one net holds all of a list of pins.
pub open spec fn one_net_holds(nets: NetListV, pins: Seq<Seq<char>>) -> bool {
    exists|i: int| 0 <= i < nets.len() && holds_all(#[trigger] nets[i].1, pins)
}

pub open spec fn holds_all(v: Seq<Seq<char>>, pins: Seq<Seq<char>>) -> bool {
    forall|k: int| 0 <= k < pins.len() ==> v.contains(#[trigger] pins[k])
}

pub open spec fn piece_texts(g: PieceListV) -> Seq<Seq<char>> {
    Seq::new(
        g.len(),
        |i: int| text::joined(names::sorted(g[i].1, g[i].1.len() as int), ","@),
    )
}

pub open spec fn split_note(nets: NetListV, e: (Seq<char>, Seq<Seq<char>>)) -> Option<Seq<char>> {
    let g = pieces_of(nets, e.1, e.1.len() as int);
    if !one_net_holds(nets, e.1) {
        Some(
            "net "@ + e.0 + " is split into "@ + text::digits(g.len()) + " unconnected pieces: "@
                + text::joined(piece_texts(g), " | "@) + " - add a net label to each piece"@,
        )
    } else {
        None
    }
}

pub open spec fn split_notes(nets: NetListV, meant: NetListV, n: int) -> Seq<Seq<char>>
    decreases n,
{
    if n <= 0 {
        Seq::empty()
    } else {
        pinref::with_error(split_notes(nets, meant, n - 1), split_note(nets, meant[n - 1]))
    }
}

/// Nets of a design that did not come out as one connected net.
pub open spec fn mismatches(d: JsonV, index: SymbolIndex, nets: NetListV) -> Seq<Seq<char>> {
    let parts = model_json::list_at(json::entries_of(d), "parts"@);
    let m = intended_nets(parts, index, parts.len() as int);
    split_notes(nets, m, m.len() as int)
}

fn number_of_pin(pins: &Vec<Pin>, k: &str) -> (r: String)
    ensures
        r@ == pin_number(pins@, k@, 0),
{
    let mut i: usize = 0;
    while i < pins.len()
        invariant
            i <= pins@.len(),
            pin_number(pins@, k@, 0) == pin_number(pins@, k@, i as int),
        decreases pins@.len() - i,
    {
        if same(pins[i].number.as_str(), k) {
            return k.to_owned();
        }
        if pins[i].name.as_str().unicode_len() > 0 && same(pins[i].name.as_str(), k) {
            return pins[i].number.clone();
        }
        i += 1;
    }
    k.to_owned()
}

fn net_meant(v: &Json) -> (r: String)
    ensures
        r@ == meant_net(v@),
{
    let found = match v {
        Json::Str(s) => Some(s.clone()),
        _ => match v.as_object() {
            Some(o) => match json::entry(o, "net") {
                Some(x) => match x.as_str() {
                    Some(s) => Some(s.clone()),
                    None => None,
                },
                None => match json::entry(o, "power") {
                    Some(x) => match x.as_str() {
                        Some(s) => Some(s.clone()),
                        None => None,
                    },
                    None => None,
                },
            },
            None => None,
        },
    };
    match found {
        Some(s) => s,
        None => {
            let r = String::new();
            assert(r@ =~= meant_net(v@));
            r
        },
    }
}

fn find_net(m: &Vec<(String, Vec<String>)>, k: &str) -> (r: usize)
    ensures
        r == order_map::seek(netlist::nets_v(m@), k@, 0),
        r <= m@.len(),
{
    let ghost mv = netlist::nets_v(m@);
    let mut i: usize = 0;
    while i < m.len()
        invariant
            i <= m@.len(),
            mv == netlist::nets_v(m@),
            order_map::seek(mv, k@, 0) == order_map::seek(mv, k@, i as int),
        decreases m@.len() - i,
    {
        assert(mv[i as int].0 == m@[i as int].0@);
        if same(m[i].0.as_str(), k) {
            return i;
        }
        i += 1;
    }
    i
}

fn add_to_net(m: &mut Vec<(String, Vec<String>)>, net: String, pin: String)
    ensures
        netlist::nets_v(final(m)@) == net_add(netlist::nets_v(old(m)@), net@, pin@),
{
    let ghost mv = netlist::nets_v(m@);
    let ghost m0 = m@;
    let ghost nn = net@;
    let ghost pn = pin@;
    let i: usize = find_net(m, net.as_str());
    proof {
        order_map::lemma_seek(mv, nn, 0);
    }
    if i < m.len() {
        assert(mv[i as int].1 == text::views(m@[i as int].1@));
        add_distinct(&mut m[i].1, pin);
        assert(netlist::nets_v(m@) =~= mv.update(i as int, (nn, names::set_add(mv[i as int].1, pn))));
    } else {
        let ghost nv = net_names(mv);
        let mut j: usize = 0;
        while j < m.len() && text::is_before(m[j].0.as_str(), net.as_str())
            invariant
                j <= m@.len(),
                m@ == m0,
                mv == netlist::nets_v(m0),
                nv == net_names(mv),
                nn == net@,
                names::spot(nv, nn, 0) == names::spot(nv, nn, j as int),
            decreases m@.len() - j,
        {
            assert(nv[j as int] == m@[j as int].0@);
            j += 1;
        }
        if j < m.len() {
            assert(nv[j as int] == m@[j as int].0@);
        }
        let mut s: Vec<String> = Vec::new();
        assert(text::views(s@) =~= Seq::empty());
        add_distinct(&mut s, pin);
        let ghost sv = text::views(s@);
        m.insert(j, (net, s));
        assert(netlist::nets_v(m@) =~= mv.insert(j as int, (nn, sv)));
    }
}

fn nets_of_part(
    m: &mut Vec<(String, Vec<String>)>,
    id: &str,
    pins: &Vec<Pin>,
    given: &Vec<(String, Json)>,
)
    ensures
        netlist::nets_v(final(m)@) == part_nets(
            netlist::nets_v(old(m)@),
            id@,
            pins@,
            json::entries_v(given@),
            given@.len() as int,
        ),
{
    let ghost m0 = netlist::nets_v(m@);
    let ghost gv = json::entries_v(given@);
    let mut i: usize = 0;
    while i < given.len()
        invariant
            i <= given@.len(),
            gv == json::entries_v(given@),
            netlist::nets_v(m@) == part_nets(m0, id@, pins@, gv, i as int),
        decreases given@.len() - i,
    {
        assert(gv[i as int] == (given@[i as int].0@, given@[i as int].1@));
        let s = net_meant(&given[i].1);
        let none = s.as_str().unicode_len() == 0 || same(s.as_str(), "nc") || same(
            s.as_str(),
            "float",
        );
        if !none {
            let k = number_of_pin(pins, given[i].0.as_str());
            let t = Line::of(id).add(".").add(k.as_str()).done();
            add_to_net(m, s, t);
        }
        i += 1;
    }
}

fn meant_nets(parts: &Vec<Json>, index: &SymbolIndex) -> (m: Vec<(String, Vec<String>)>)
    requires
        json::all_ok(json::values_v(parts@)),
    ensures
        netlist::nets_v(m@) == intended_nets(
            json::values_v(parts@),
            *index,
            parts@.len() as int,
        ),
{
    let ghost pv = json::values_v(parts@);
    let mut m: Vec<(String, Vec<String>)> = Vec::new();
    let mut i: usize = 0;
    assert(netlist::nets_v(m@) =~= intended_nets(pv, *index, 0));
    while i < parts.len()
        invariant
            i <= parts@.len(),
            pv == json::values_v(parts@),
            json::all_ok(pv),
            netlist::nets_v(m@) == intended_nets(pv, *index, i as int),
        decreases parts@.len() - i,
    {
        assert(pv[i as int] == parts@[i as int]@);
        assert(json::ok(pv[i as int]));
        let lib = field_text(&parts[i], "lib");
        match index.get(lib.as_str()) {
            Some(info) => {
                if !(info.power || starts_with(lib.as_str(), "power:") || ends_with(
                    lib.as_str(),
                    ":PWR_FLAG",
                )) {
                    let given: Vec<(String, Json)> = match parts[i].get("pins") {
                        Some(v) => object_of(v),
                        None => Vec::new(),
                    };
                    let ghost gv = json::entries_v(given@);
                    assert(gv =~= (match json::field(pv[i as int], "pins"@) {
                        Some(v) => json::entries_of(v),
                        None => Seq::empty(),
                    }));
                    assert(gv.len() == given@.len());
                    let id = pinref::name_of(&parts[i]);
                    nets_of_part(&mut m, id.as_str(), &info.pins, &given);
                }
            },
            None => {},
        }
        i += 1;
    }
    m
}

/// Pins that are connected, and the position of the net that connects them.
struct PinGroup {
    net: Option<usize>,
    pins: Vec<String>,
}

spec fn place_v(k: Option<usize>) -> Option<int> {
    match k {
        Some(i) => Some(i as int),
        None => None,
    }
}

spec fn groups_v(v: Seq<PinGroup>) -> PieceListV {
    Seq::new(v.len(), |i: int| (place_v(v[i].net), text::views(v[i].pins@)))
}

fn has_all(v: &Vec<String>, pins: &Vec<String>) -> (r: bool)
    ensures
        r == holds_all(text::views(v@), text::views(pins@)),
{
    let ghost pv = text::views(pins@);
    let mut k: usize = 0;
    while k < pins.len()
        invariant
            k <= pins@.len(),
            pv == text::views(pins@),
            forall|j: int| 0 <= j < k ==> text::views(v@).contains(#[trigger] pv[j]),
        decreases pins@.len() - k,
    {
        assert(pv[k as int] == pins@[k as int]@);
        if !has_name(v, pins[k].as_str()) {
            assert(!text::views(v@).contains(pv[k as int]));
            return false;
        }
        k += 1;
    }
    true
}

fn is_one_net(nets: &Vec<(String, Vec<String>)>, pins: &Vec<String>) -> (r: bool)
    ensures
        r == one_net_holds(netlist::nets_v(nets@), text::views(pins@)),
{
    let ghost nv = netlist::nets_v(nets@);
    let mut i: usize = 0;
    while i < nets.len()
        invariant
            i <= nets@.len(),
            nv == netlist::nets_v(nets@),
            forall|j: int| 0 <= j < i ==> !holds_all(#[trigger] nv[j].1, text::views(pins@)),
        decreases nets@.len() - i,
    {
        assert(nv[i as int] == (nets@[i as int].0@, text::views(nets@[i as int].1@)));
        if has_all(&nets[i].1, pins) {
            assert(holds_all(nv[i as int].1, text::views(pins@)));
            return true;
        }
        i += 1;
    }
    false
}

fn where_is(nets: &Vec<(String, Vec<String>)>, pin: &str) -> (r: Option<usize>)
    ensures
        place_v(r) == net_of_pin(netlist::nets_v(nets@), pin@, nets@.len() as int),
{
    let ghost nv = netlist::nets_v(nets@);
    let mut i: usize = nets.len();
    while i > 0
        invariant
            i <= nets@.len(),
            nv == netlist::nets_v(nets@),
            net_of_pin(nv, pin@, nets@.len() as int) == net_of_pin(nv, pin@, i as int),
        decreases i,
    {
        assert(nv[i - 1] == (nets@[i - 1].0@, text::views(nets@[i - 1].1@)));
        if has_name(&nets[i - 1].1, pin) {
            return Some(i - 1);
        }
        i -= 1;
    }
    None
}

fn find_piece(g: &Vec<PinGroup>, k: usize) -> (r: usize)
    ensures
        r == piece_at(groups_v(g@), Some(k as int), 0),
        r <= g@.len(),
{
    let ghost gv = groups_v(g@);
    let mut i: usize = 0;
    while i < g.len()
        invariant
            i <= g@.len(),
            gv == groups_v(g@),
            piece_at(gv, Some(k as int), 0) == piece_at(gv, Some(k as int), i as int),
        decreases g@.len() - i,
    {
        assert(gv[i as int].0 == place_v(g@[i as int].net));
        if let Some(n) = g[i].net {
            if n == k {
                return i;
            }
        }
        i += 1;
    }
    i
}

fn group_pins(nets: &Vec<(String, Vec<String>)>, pins: &Vec<String>) -> (g: Vec<PinGroup>)
    ensures
        groups_v(g@) == pieces_of(
            netlist::nets_v(nets@),
            text::views(pins@),
            pins@.len() as int,
        ),
{
    let ghost nv = netlist::nets_v(nets@);
    let ghost pv = text::views(pins@);
    assert(nv.len() == nets@.len());
    let mut g: Vec<PinGroup> = Vec::new();
    let mut i: usize = 0;
    assert(groups_v(g@) =~= pieces_of(nv, pv, 0));
    while i < pins.len()
        invariant
            i <= pins@.len(),
            nv == netlist::nets_v(nets@),
            nv.len() == nets@.len(),
            pv == text::views(pins@),
            groups_v(g@) == pieces_of(nv, pv, i as int),
        decreases pins@.len() - i,
    {
        assert(pv[i as int] == pins@[i as int]@);
        let k = where_is(nets, pins[i].as_str());
        let ghost kv = place_v(k);
        let ghost gv = groups_v(g@);
        let j: usize = match k {
            Some(n) => find_piece(&g, n),
            None => g.len(),
        };
        if j < g.len() {
            let ghost v0 = g@[j as int].pins@;
            assert(gv[j as int].1 == text::views(v0));
            proof {
                lemma_piece(gv, kv, 0);
            }
            g[j].pins.push(pins[i].clone());
            assert(text::views(g@[j as int].pins@) =~= gv[j as int].1.push(pv[i as int]));
            assert(groups_v(g@) =~= gv.update(
                j as int,
                (kv, gv[j as int].1.push(pv[i as int])),
            ));
        } else {
            let mut v: Vec<String> = Vec::new();
            v.push(pins[i].clone());
            assert(text::views(v@) =~= seq![pv[i as int]]);
            g.push(PinGroup { net: k, pins: v });
            assert(groups_v(g@) =~= gv.push((kv, seq![pv[i as int]])));
        }
        i += 1;
    }
    g
}

proof fn lemma_piece(g: PieceListV, k: Option<int>, i: int)
    requires
        0 <= i <= g.len(),
    ensures
        i <= piece_at(g, k, i) <= g.len(),
        piece_at(g, k, i) < g.len() ==> g[piece_at(g, k, i)].0 == k,
    decreases g.len() - i,
{
    if i < g.len() && g[i].0 != k {
        lemma_piece(g, k, i + 1);
    }
}

/// Every net that a design names must come out as exactly one connected net.
pub fn netlist_mismatch(
    d: &Json,
    index: &SymbolIndex,
    nets: &Vec<(String, Vec<String>)>,
) -> (r: Vec<String>)
    requires
        json::ok(d@),
    ensures
        text::views(r@) == mismatches(d@, *index, netlist::nets_v(nets@)),
{
    let o = object_of(d);
    let parts = list_of(&o, "parts");
    assert(json::values_v(parts@).len() == parts@.len());
    let m = meant_nets(&parts, index);
    let ghost mv = netlist::nets_v(m@);
    let ghost nv = netlist::nets_v(nets@);
    assert(mv.len() == m@.len());
    let mut r: Vec<String> = Vec::new();
    let mut i: usize = 0;
    assert(text::views(r@) =~= split_notes(nv, mv, 0));
    while i < m.len()
        invariant
            i <= m@.len(),
            mv == netlist::nets_v(m@),
            nv == netlist::nets_v(nets@),
            text::views(r@) == split_notes(nv, mv, i as int),
        decreases m@.len() - i,
    {
        assert(mv[i as int] == (m@[i as int].0@, text::views(m@[i as int].1@)));
        let g = group_pins(nets, &m[i].1);
        let ghost gv = groups_v(g@);
        assert(mv[i as int].1.len() == m@[i as int].1@.len());
        assert(gv.len() == g@.len());
        if !is_one_net(nets, &m[i].1) {
            let mut texts: Vec<String> = Vec::new();
            let mut j: usize = 0;
            while j < g.len()
                invariant
                    j <= g@.len(),
                    gv == groups_v(g@),
                    texts@.len() == j,
                    forall|k: int| 0 <= k < j ==> (#[trigger] texts@[k])@ == piece_texts(gv)[k],
                decreases g@.len() - j,
            {
                assert(gv[j as int].1 == text::views(g@[j as int].pins@));
                assert(gv[j as int].1.len() == g@[j as int].pins@.len());
                texts.push(join(&sort_names(&g[j].pins), ","));
                j += 1;
            }
            assert(text::views(texts@) =~= piece_texts(gv));
            let list = join(&texts, " | ");
            let t = Line::of("net ").add(m[i].0.as_str()).add(" is split into ").count(
                g.len() as u128,
            ).add(" unconnected pieces: ").add(list.as_str()).add(
                " - add a net label to each piece",
            ).done();
            pinref::note(&mut r, Some(t));
        }
        i += 1;
    }
    r
}

// ---------------------------------------------------------------- findings of a rule check
/// A coordinate pair in a text: what stands before it, its own text and its two numbers.
pub struct PieceV {
    pub gap: Seq<char>,
    pub whole: Seq<char>,
    pub x: Seq<char>,
    pub y: Seq<char>,
}

pub struct Piece {
    pub gap: String,
    pub whole: String,
    pub x: String,
    pub y: String,
}

impl Piece {
    pub open spec fn view(&self) -> PieceV {
        PieceV { gap: self.gap@, whole: self.whole@, x: self.x@, y: self.y@ }
    }
}

pub struct PiecesV {
    pub v: Seq<PieceV>,
    pub rest: Seq<char>,
}

pub open spec fn piece_views(v: Seq<Piece>) -> Seq<PieceV> {
    Seq::new(v.len(), |i: int| v[i]@)
}

/// What the pattern `@\(([-\d.]+),([-\d.]+)\)` finds in a text.
pub uninterp spec fn coordinate_pieces(s: Seq<char>) -> PiecesV;

/// The text of the first `n` pieces.
pub open spec fn pieces_text(v: Seq<PieceV>, n: int) -> Seq<char>
    decreases n,
{
    if n <= 0 {
        Seq::empty()
    } else {
        pieces_text(v, n - 1) + v[n - 1].gap + v[n - 1].whole
    }
}

/// `regex::Regex::captures_iter` with the pattern `@\(([-\d.]+),([-\d.]+)\)`: the matches from left
/// to right, each with the text before it and its two groups, and the text after the last. They
/// depend on the text alone, and put together they are the text.
#[verifier::external_body]
fn find_coordinates(it: &str) -> (r: (Vec<Piece>, String))
    ensures
        piece_views(r.0@) == coordinate_pieces(it@).v,
        r.1@ == coordinate_pieces(it@).rest,
        pieces_text(piece_views(r.0@), r.0@.len() as int) + r.1@ == it@,
{
    let re = regex::Regex::new("@\\(([-\\d.]+),([-\\d.]+)\\)").unwrap();
    let mut v: Vec<Piece> = Vec::new();
    let mut last: usize = 0;
    for c in re.captures_iter(it) {
        let m = c.get(0).unwrap();
        let gap = it[last..m.start()].to_string();
        let whole = m.as_str().to_string();
        v.push(Piece { gap, whole, x: c[1].to_string(), y: c[2].to_string() });
        last = m.end();
    }
    (v, it[last..].to_string())
}

/// A number of hundreds of millimetres in grid steps.
pub open spec fn hundreds_text(m: int) -> Seq<char> {
    number::shown(model_json::to_grid(m * 10) * 1000)
}

/// A coordinate pair in grid steps; one whose numbers cannot be read stays as it is.
pub open spec fn piece_shown(p: PieceV) -> Seq<char> {
    match (number::number_of(p.x), number::number_of(p.y)) {
        (Some(x), Some(y)) => "@("@ + hundreds_text(x) + ","@ + hundreds_text(y) + ")"@,
        _ => p.whole,
    }
}

pub open spec fn pieces_shown(v: Seq<PieceV>, n: int) -> Seq<char>
    decreases n,
{
    if n <= 0 {
        Seq::empty()
    } else {
        pieces_shown(v, n - 1) + v[n - 1].gap + piece_shown(v[n - 1])
    }
}

fn hundreds_str(m: i64) -> (r: String)
    requires
        -NUM_MAX <= m <= NUM_MAX,
    ensures
        r@ == hundreds_text(m as int),
{
    let t: i128 = divide_even(m as i128 * 10, 127);
    fmt_num((t * 1000) as i64)
}

fn show_piece(p: &Piece) -> (r: String)
    ensures
        r@ == piece_shown(p@),
{
    match (read_number(p.x.as_str()), read_number(p.y.as_str())) {
        (Some(x), Some(y)) => {
            let a = hundreds_str(x);
            let b = hundreds_str(y);
            Line::of("@(").add(a.as_str()).add(",").add(b.as_str()).add(")").done()
        },
        _ => p.whole.clone(),
    }
}

/// Puts a text together again with its coordinates in grid steps.
pub fn rewrite_pieces(v: &Vec<Piece>, rest: &str) -> (r: String)
    ensures
        r@ == pieces_shown(piece_views(v@), v@.len() as int) + rest@,
{
    let ghost pv = piece_views(v@);
    let mut r = String::new();
    let mut i: usize = 0;
    assert(r@ =~= pieces_shown(pv, 0));
    while i < v.len()
        invariant
            i <= v@.len(),
            pv == piece_views(v@),
            r@ == pieces_shown(pv, i as int),
        decreases v@.len() - i,
    {
        assert(pv[i as int] == v@[i as int]@);
        let t = show_piece(&v[i]);
        r.append(v[i].gap.as_str());
        r.append(t.as_str());
        i += 1;
    }
    r.append(rest);
    r
}

pub open spec fn erc_text(s: Seq<char>) -> Seq<char> {
    let p = coordinate_pieces(s);
    pieces_shown(p.v, p.v.len() as int) + p.rest
}

/// Rewrites the coordinates in a finding into grid steps.
pub fn erc_item(it: &str) -> (r: String)
    ensures
        r@ == erc_text(it@),
{
    let (v, rest) = find_coordinates(it);
    assert(piece_views(v@).len() == v@.len());
    rewrite_pieces(&v, rest.as_str())
}

pub open spec fn ignored(kind: Seq<char>) -> bool {
    kind == "lib_symbol_issues"@ || kind == "footprint_link_issues"@ || kind
        == "lib_symbol_mismatch"@ || kind == "undefined_netclass"@
}

/// The JSON text of a coordinate, or a question mark.
pub open spec fn coordinate_text(pos: Option<JsonV>, k: Seq<char>) -> Seq<char> {
    match pos {
        Some(p) => match json::field(p, k) {
            Some(v) => json::text_of(v),
            None => "?"@,
        },
        None => "?"@,
    }
}

pub open spec fn item_text(it: JsonV) -> Seq<char> {
    let pos = json::field(it, "pos"@);
    erc_text(
        pinref::text_field(it, "description"@) + " @("@ + coordinate_text(pos, "x"@) + ","@
            + coordinate_text(pos, "y"@) + ")"@,
    )
}

pub open spec fn item_texts(v: Seq<JsonV>) -> Seq<Seq<char>> {
    Seq::new(v.len(), |i: int| item_text(v[i]))
}

pub open spec fn finding_text(v: JsonV) -> Seq<char> {
    "["@ + pinref::text_field(v, "severity"@) + "] "@ + pinref::text_field(v, "type"@) + ": "@
        + pinref::text_field(v, "description"@) + " -- "@ + text::joined(
        item_texts(model_json::list_at(json::entries_of(v), "items"@)),
        "; "@,
    )
}

/// Lines for errors, and lines for the rest.
#[verifier::ext_equal]
pub struct FindingsV {
    pub errors: Seq<Seq<char>>,
    pub rest: Seq<Seq<char>>,
}

pub open spec fn with_finding(f: FindingsV, v: JsonV) -> FindingsV {
    if ignored(pinref::text_field(v, "type"@)) {
        f
    } else if pinref::text_field(v, "severity"@) == "error"@ {
        FindingsV { errors: f.errors.push(finding_text(v)), ..f }
    } else {
        FindingsV { rest: f.rest.push(finding_text(v)), ..f }
    }
}

pub open spec fn sheet_findings(f: FindingsV, v: Seq<JsonV>, n: int) -> FindingsV
    decreases n,
{
    if n <= 0 {
        f
    } else {
        with_finding(sheet_findings(f, v, n - 1), v[n - 1])
    }
}

pub open spec fn all_findings(sheets: Seq<JsonV>, n: int) -> FindingsV
    decreases n,
{
    if n <= 0 {
        FindingsV { errors: Seq::empty(), rest: Seq::empty() }
    } else {
        let v = model_json::list_at(json::entries_of(sheets[n - 1]), "violations"@);
        sheet_findings(all_findings(sheets, n - 1), v, v.len() as int)
    }
}

/// The lines of a rule check's report: errors first.
pub open spec fn report_lines(data: JsonV) -> Seq<Seq<char>> {
    let sheets = model_json::list_at(json::entries_of(data), "sheets"@);
    let f = all_findings(sheets, sheets.len() as int);
    f.errors + f.rest
}

fn coordinate_str(pos: Option<&Json>, k: &str) -> (r: String)
    requires
        pos is Some ==> json::ok(pos->0@),
    ensures
        r@ == coordinate_text(json::found_v(pos), k@),
{
    match pos {
        Some(p) => match p.get(k) {
            Some(v) => v.to_text(),
            None => "?".to_owned(),
        },
        None => "?".to_owned(),
    }
}

fn item_str(it: &Json) -> (r: String)
    requires
        json::ok(it@),
    ensures
        r@ == item_text(it@),
{
    let d = field_text(it, "description");
    let x = coordinate_str(it.get("pos"), "x");
    let y = coordinate_str(it.get("pos"), "y");
    let t = Line::of(d.as_str()).add(" @(").add(x.as_str()).add(",").add(y.as_str()).add(
        ")",
    ).done();
    erc_item(t.as_str())
}

fn finding_str(v: &Json) -> (r: String)
    requires
        json::ok(v@),
    ensures
        r@ == finding_text(v@),
{
    let o = object_of(v);
    let items = list_of(&o, "items");
    let ghost iv = json::values_v(items@);
    let mut texts: Vec<String> = Vec::new();
    let mut i: usize = 0;
    while i < items.len()
        invariant
            i <= items@.len(),
            iv == json::values_v(items@),
            json::all_ok(iv),
            texts@.len() == i,
            forall|k: int| 0 <= k < i ==> (#[trigger] texts@[k])@ == item_texts(iv)[k],
        decreases items@.len() - i,
    {
        assert(iv[i as int] == items@[i as int]@);
        assert(json::ok(iv[i as int]));
        texts.push(item_str(&items[i]));
        i += 1;
    }
    assert(text::views(texts@) =~= item_texts(iv));
    let list = join(&texts, "; ");
    let sev = field_text(v, "severity");
    let kind = field_text(v, "type");
    let desc = field_text(v, "description");
    Line::of("[").add(sev.as_str()).add("] ").add(kind.as_str()).add(": ").add(
        desc.as_str(),
    ).add(" -- ").add(list.as_str()).done()
}

fn is_ignored(kind: &str) -> (r: bool)
    ensures
        r == ignored(kind@),
{
    same(kind, "lib_symbol_issues") || same(kind, "footprint_link_issues") || same(
        kind,
        "lib_symbol_mismatch",
    ) || same(kind, "undefined_netclass")
}

/// The lines of a rule check's report.
pub fn erc_lines(data: &Json) -> (r: Vec<String>)
    requires
        json::ok(data@),
    ensures
        text::views(r@) == report_lines(data@),
{
    let o = object_of(data);
    let sheets = list_of(&o, "sheets");
    let ghost sv = json::values_v(sheets@);
    let mut errors: Vec<String> = Vec::new();
    let mut rest: Vec<String> = Vec::new();
    let mut i: usize = 0;
    assert(text::views(errors@) =~= Seq::empty());
    assert(text::views(rest@) =~= Seq::empty());
    while i < sheets.len()
        invariant
            i <= sheets@.len(),
            sv == json::values_v(sheets@),
            json::all_ok(sv),
            text::views(errors@) == all_findings(sv, i as int).errors,
            text::views(rest@) == all_findings(sv, i as int).rest,
        decreases sheets@.len() - i,
    {
        assert(sv[i as int] == sheets@[i as int]@);
        assert(json::ok(sv[i as int]));
        let ghost f0 = all_findings(sv, i as int);
        let so = object_of(&sheets[i]);
        let v = list_of(&so, "violations");
        let ghost vv = json::values_v(v@);
        assert(vv.len() == v@.len());
        let mut j: usize = 0;
        while j < v.len()
            invariant
                j <= v@.len(),
                vv == json::values_v(v@),
                json::all_ok(vv),
                text::views(errors@) == sheet_findings(f0, vv, j as int).errors,
                text::views(rest@) == sheet_findings(f0, vv, j as int).rest,
            decreases v@.len() - j,
        {
            assert(vv[j as int] == v@[j as int]@);
            assert(json::ok(vv[j as int]));
            let kind = field_text(&v[j], "type");
            let ghost e0 = text::views(errors@);
            let ghost r0 = text::views(rest@);
            if !is_ignored(kind.as_str()) {
                let t = finding_str(&v[j]);
                let ghost tv = t@;
                if same(field_text(&v[j], "severity").as_str(), "error") {
                    errors.push(t);
                    assert(text::views(errors@) =~= e0.push(tv));
                } else {
                    rest.push(t);
                    assert(text::views(rest@) =~= r0.push(tv));
                }
            }
            j += 1;
        }
        i += 1;
    }
    let ghost ev = text::views(errors@);
    let ghost rv = text::views(rest@);
    assert(sv.len() == sheets@.len());
    errors.append(&mut rest);
    assert(text::views(errors@) =~= ev + rv);
    errors
}

} // verus!
