use sch_engine::chains::raw_chains;
use sch_engine::cluster_geom::{emit_bank, list_covered, list_members, stack_chain, BANK_PITCH};
use sch_engine::geom::Pt;
use sch_engine::grammar::{is_ground, labeled_nets, net_uses, role_of, Role};
use sch_engine::kernel::{
    Bank, Block, ClusterGeom, Component, Design, Link, Origin, PinKind, PinMeta, PinTarget,
    Provider, SymbolMeta,
};
use sch_engine::natural::natural_before;

fn meta(lib: &str, pins: &[(&str, &str, PinKind)]) -> SymbolMeta {
    SymbolMeta {
        lib_id: lib.to_string(),
        pins: pins
            .iter()
            .map(|(n, m, k)| PinMeta { number: n.to_string(), name: m.to_string(), kind: *k })
            .collect(),
    }
}

fn provider() -> Provider {
    let two = [("1", "~", PinKind::Other), ("2", "~", PinKind::Other)];
    Provider {
        symbols: vec![
            meta("Device:R", &two),
            meta("Device:C", &two),
            meta(
                "Mock:REG",
                &[
                    ("1", "VI", PinKind::PowerInput),
                    ("2", "GND", PinKind::PowerInput),
                    ("3", "VO", PinKind::PowerOutput),
                    ("4", "EN", PinKind::Other),
                ],
            ),
        ],
    }
}

fn comp(part: &str, pins: &[(&str, &str)]) -> Component {
    Component {
        part: part.to_string(),
        value: None,
        pins: pins.iter().map(|(p, n)| (p.to_string(), PinTarget::Net(n.to_string()))).collect(),
        units: vec![],
        origin: Origin::Authored,
        rail_span: false,
    }
}

fn between(part: &str, a: &str, b: &str) -> Component {
    comp(part, &[("1", a), ("2", b)])
}

fn block(components: Vec<(&str, Component)>) -> Block {
    Block {
        components: components.into_iter().map(|(n, c)| (n.to_string(), c)).collect(),
        edge: "None".to_string(),
        near: "None".to_string(),
        note: None,
    }
}

fn design(rails: &[&str], blocks: Vec<(&str, Block)>) -> Design {
    let blocks: Vec<(String, Block)> =
        blocks.into_iter().map(|(n, b)| (n.to_string(), b)).collect();
    let mut nets: Vec<(String, bool)> = rails.iter().map(|r| (r.to_string(), true)).collect();
    for (_, b) in &blocks {
        for (_, c) in &b.components {
            for (_, t) in &c.pins {
                if let PinTarget::Net(n) = t {
                    if !nets.iter().any(|(m, _)| m == n) {
                        nets.push((n.clone(), false));
                    }
                }
            }
        }
    }
    Design { name: Some("t".to_string()), blocks, nets }
}

fn reg(vi: &str, gnd: &str, vo: &str, en: &str) -> Component {
    comp("Mock:REG", &[("VI", vi), ("GND", gnd), ("VO", vo), ("EN", en)])
}

#[test]
fn roles_are_inferred_from_pin_count_and_targets() {
    let p = provider();
    assert_eq!(role_of(&between("Device:R", "VCC", "OUT"), &p), Role::ChainElement);
    assert_eq!(role_of(&reg("VCC", "GND", "OUT", "VCC"), &p), Role::Anchor);
}

#[test]
fn two_pin_part_with_nc_pin_is_an_anchor() {
    let mut c = between("Device:R", "A", "B");
    c.pins[1].1 = PinTarget::NoConnect;
    assert_eq!(role_of(&c, &provider()), Role::Anchor);
}

#[test]
fn net_uses_collects_pins_power_and_externality() {
    let d = design(
        &["VCC", "GND"],
        vec![
            (
                "a",
                block(vec![
                    ("R1", between("Device:R", "VCC", "OUT")),
                    ("R2", between("Device:R", "OUT", "GND")),
                    ("U1", reg("VCC", "GND", "OUT", "VCC")),
                ]),
            ),
            ("b", block(vec![("C1", between("Device:C", "OUT", "GND"))])),
        ],
    );
    let uses = net_uses(&d, "a", &d.blocks[0].1, &provider());
    let get = |n: &str| &uses.iter().find(|(k, _)| k == n).unwrap().1;
    let out = get("OUT");
    assert_eq!(
        out.chain_pins,
        vec![("R1".to_string(), "2".to_string()), ("R2".to_string(), "1".to_string())]
    );
    assert_eq!(out.anchor_pins, vec![("U1".to_string(), "VO".to_string())]);
    assert!(out.external, "OUT is also used in block b");
    assert!(!out.power);
    assert!(get("GND").power);
    let labels = labeled_nets(&uses, &vec!["VCC".to_string(), "GND".to_string()]);
    assert_eq!(labels, ["OUT"]);
}

#[test]
fn net_uses_keys_in_natural_order() {
    let d = design(
        &["VCC", "GND"],
        vec![(
            "a",
            block(vec![
                ("R1", between("Device:R", "N2", "N10")),
                ("R2", between("Device:R", "N10", "GND")),
            ]),
        )],
    );
    let uses = net_uses(&d, "a", &d.blocks[0].1, &provider());
    let keys: Vec<&str> = uses.iter().map(|(k, _)| k.as_str()).collect();
    let pos_n2 = keys.iter().position(|&k| k == "N2").expect("N2 present");
    let pos_n10 = keys.iter().position(|&k| k == "N10").expect("N10 present");
    assert!(
        pos_n2 < pos_n10,
        "expected N2 before N10 in natural order, but got: {:?}",
        keys
    );
}

#[test]
fn natural_order_counts_runs_of_digits() {
    assert!(natural_before("N2", "N10"));
    assert!(!natural_before("N10", "N2"));
    assert!(natural_before("A", "A1"));
    assert!(natural_before("R007", "R8"));
    assert!(!natural_before("R1", "R1"));
}

#[test]
fn ground_detection() {
    assert!(is_ground("GND"));
    assert!(is_ground("AGND"));
    assert!(is_ground("VSS"));
    assert!(!is_ground("VCC"));
    assert!(!is_ground("3V3"));
}

#[test]
fn unknown_part_with_two_net_pins_is_a_chain_element() {
    assert_eq!(role_of(&between("Unknown:X", "A", "B"), &provider()), Role::ChainElement);
}

fn raw(rails: &[&str], b: Block) -> (Vec<Vec<Link>>, Vec<String>) {
    let d = design(rails, vec![("a", b)]);
    let p = provider();
    let uses = net_uses(&d, "a", &d.blocks[0].1, &p);
    let elements: Vec<String> = d.blocks[0]
        .1
        .components
        .iter()
        .filter(|(_, c)| role_of(c, &p) == Role::ChainElement)
        .map(|(r, _)| r.clone())
        .collect();
    raw_chains(&d.blocks[0].1, &uses, &elements)
}

#[test]
fn divider_node_breaks_chains_into_three() {
    let (chains, notes) = raw(
        &["VCC", "GND"],
        block(vec![
            ("R7", between("Device:R", "VCC", "OUT")),
            ("R8", between("Device:R", "OUT", "GND")),
            ("C3", between("Device:C", "OUT", "GND")),
        ]),
    );
    assert!(notes.is_empty());
    assert_eq!(chains.len(), 3);
    assert!(chains.iter().all(|c| c.len() == 1));
}

#[test]
fn series_elements_chain_through_degree_two_nets_with_anchor_taps() {
    let (chains, notes) = raw(
        &["9V", "GND"],
        block(vec![
            ("R1", between("Device:R", "9V", "N_DIS")),
            ("R2", between("Device:R", "N_DIS", "N_THR")),
            ("C1", between("Device:C", "N_THR", "GND")),
            ("U1", reg("N_DIS", "N_THR", "Q", "9V")),
        ]),
    );
    assert!(notes.is_empty());
    assert_eq!(chains.len(), 1, "{chains:?}");
    let refs: Vec<&str> = chains[0].iter().map(|l| l.refdes.as_str()).collect();
    assert_eq!(refs, ["R1", "R2", "C1"]);
    assert_eq!(chains[0][0].a_net, "9V");
    assert_eq!(chains[0][2].b_net, "GND");
}

#[test]
fn pure_cycle_breaks_deterministically() {
    let (chains, notes) = raw(
        &[],
        block(vec![
            ("R1", between("Device:R", "N1", "N2")),
            ("R2", between("Device:R", "N2", "N3")),
            ("R3", between("Device:R", "N3", "N1")),
        ]),
    );
    assert_eq!(chains.len(), 1);
    assert_eq!(chains[0].len(), 3);
    let refs: Vec<&str> = chains[0].iter().map(|l| l.refdes.as_str()).collect();
    assert_eq!(refs, ["R1", "R2", "R3"], "walk sequence must be deterministic");
    assert_eq!(chains[0][0].a_net, "N1", "R1 must be entered from N1 (its first net)");
    assert_eq!(notes.len(), 1, "cycle break must be reported: {notes:?}");
    assert_eq!(
        notes[0],
        "cycle through R1 broken at net N1 (feedback loops degrade to labels)"
    );
}

/// A point in hundredths of a millimetre.
fn at(x: i64, y: i64) -> Pt {
    Pt { x: x * 1000, y: y * 1000 }
}

fn mock_pins(refs: &[&str]) -> Vec<(String, String, Pt)> {
    let mut v = Vec::new();
    for r in refs {
        v.push((r.to_string(), "1".to_string(), at(0, -381)));
        v.push((r.to_string(), "2".to_string(), at(0, 381)));
    }
    v
}

fn link(refdes: &str, a_pin: &str, a_net: &str, b_pin: &str, b_net: &str) -> Link {
    Link {
        refdes: refdes.to_string(),
        a_pin: a_pin.to_string(),
        a_net: a_net.to_string(),
        b_pin: b_pin.to_string(),
        b_net: b_net.to_string(),
    }
}

#[test]
fn stack_chain_places_pin_to_pin_downward() {
    let mut g = ClusterGeom::new();
    let links =
        vec![link("D1", "2", "3V3", "1", "MID"), link("R2", "1", "MID", "2", "GND")];
    let (end, joints) =
        stack_chain(&mut g, &links, at(0, 0), true, &mock_pins(&["D1", "R2"]));
    assert_eq!(g.placements[0], ("D1".to_string(), at(0, 381), 180));
    assert_eq!(g.placements[1], ("R2".to_string(), at(0, 1143), 0));
    assert_eq!(end, at(0, 1524));
    assert_eq!(joints, vec![("MID".to_string(), at(0, 762))]);
    assert_eq!(g.covered.len(), 4);
}

#[test]
fn bank_has_buses_single_ports_and_junctions() {
    let b = block(vec![
        ("C1", between("Device:C", "3V3", "GND")),
        ("C2", between("Device:C", "3V3", "GND")),
        ("C3", between("Device:C", "GND", "3V3")),
    ]);
    let bank = Bank {
        a_net: "3V3".to_string(),
        b_net: "GND".to_string(),
        members: vec!["C1".to_string(), "C2".to_string(), "C3".to_string()],
    };
    let mut g = ClusterGeom::new();
    emit_bank(&mut g, &bank, at(0, 0), &b, &mock_pins(&["C1", "C2", "C3"]));
    assert_eq!(g.placements.len(), 3);
    assert_eq!(g.placements[0].1.x + BANK_PITCH, g.placements[1].1.x);
    assert_eq!(g.placements[2].2, 180, "C3 flips so its 3V3 pin is up");
    assert_eq!(g.ports.len(), 2);
    let nets: Vec<&str> = g.ports.iter().map(|(n, _)| n.as_str()).collect();
    assert!(nets.contains(&"3V3") && nets.contains(&"GND"));
    assert_eq!(g.wires.len(), 8);
    assert_eq!(g.junctions.len(), 4);
    assert_eq!(g.covered.len(), 6);
}

#[test]
fn members_know_their_cluster() {
    let mut g = ClusterGeom::new();
    let links = vec![link("D1", "2", "3V3", "1", "MID")];
    stack_chain(&mut g, &links, at(0, 0), true, &mock_pins(&["D1"]));
    let geoms = vec![("a".to_string(), vec![ClusterGeom::new(), g])];
    let m = list_members(&geoms);
    assert_eq!(m.len(), 1);
    assert_eq!(m[0].0, "D1");
    assert_eq!(m[0].1.cluster_key, "a\u{0}1");
    assert_eq!(m[0].1.cluster_idx, 1);
    assert_eq!(list_covered(&geoms).len(), 2);
}

#[test]
fn a_link_turned_twice_is_itself() {
    let l = link("R1", "1", "A", "2", "B");
    assert_eq!(l.reversed().reversed(), l);
    assert_eq!(l.reversed().a_net, "B");
}
