use sch_engine::emit::{Gallery, PinGeom, SymbolGeometry};
use sch_engine::geom::Pt;
use sch_engine::kernel::{
    Block, BlockGraph, Chain, Cluster, Component, Design, Link, Origin, PinKind, PinMeta,
    PinTarget, Provider, SymbolMeta,
};
use sch_engine::reconcile::{
    ap_properties, cluster_key, grammar_rev, initial_angle, layout_rev, power_lib_id,
    prior_of_symbols, resolve_placement, GrammarInputs, Identity, Layout, PriorSymbol, Relayout,
    AP_BLOCK, AP_INDEX, AP_LAYOUT_REV, AP_PARENT, AP_ROLE, ROLE_AUTHORED,
};
use sch_engine::wiring::{emit_design_reconciled, EmitOutput, NetRoute};

/// A point in hundredths of a millimetre.
fn at(x: i64, y: i64) -> Pt {
    Pt { x: x * 1000, y: y * 1000 }
}

#[test]
fn identity_of_authored_is_refdes() {
    assert_eq!(
        Identity::of("R1", &Origin::Authored),
        Identity::Authored("R1".to_string())
    );
}

#[test]
fn identity_of_synthesized_is_provenance() {
    let o = Origin::Synthesized {
        parent: "U1".to_string(),
        role: "decouple".to_string(),
        index: 2,
    };
    assert_eq!(
        Identity::of("C9", &o),
        Identity::Synthesized {
            parent: "U1".to_string(),
            role: "decouple".to_string(),
            index: 2,
        }
    );
}

#[test]
fn ap_properties_tags_authored_and_synthesized() {
    let authored = ap_properties("blk", &Origin::Authored, "rev0");
    assert!(authored.contains(&(AP_BLOCK.to_string(), "blk".to_string())));
    assert!(authored.contains(&(AP_ROLE.to_string(), ROLE_AUTHORED.to_string())));
    assert!(authored.contains(&(AP_LAYOUT_REV.to_string(), "rev0".to_string())));

    let synth = ap_properties(
        "blk",
        &Origin::Synthesized {
            parent: "U1".to_string(),
            role: "decouple".to_string(),
            index: 0,
        },
        "rev0",
    );
    assert!(synth.contains(&(AP_PARENT.to_string(), "U1".to_string())));
    assert!(synth.contains(&(AP_ROLE.to_string(), "decouple".to_string())));
    assert!(synth.contains(&(AP_INDEX.to_string(), "0".to_string())));
}

fn symbol(reference: Option<&str>, props: &[(&str, &str)]) -> PriorSymbol {
    PriorSymbol {
        at: Some(at(2540, 2540)),
        angle: None,
        reference: reference.map(|r| r.to_string()),
        uuid: Some("u".to_string()),
        properties: props.iter().map(|(k, v)| (k.to_string(), v.to_string())).collect(),
    }
}

#[test]
fn earlier_symbols_are_known_by_their_tags() {
    let mut lost = symbol(Some("R7"), &[]);
    lost.at = None;
    let v = prior_of_symbols(&vec![
        symbol(Some("R1"), &[("ap_role", "authored")]),
        symbol(Some("#PWR1"), &[]),
        symbol(None, &[]),
        lost,
        symbol(
            Some("C9"),
            &[("ap_role", "decouple"), ("ap_parent", "U1"), ("ap_index", "2")],
        ),
        symbol(Some("C8"), &[("ap_role", "decouple"), ("ap_parent", "U1"), ("ap_index", "x")]),
    ]);
    let ids: Vec<&Identity> = v.iter().map(|e| &e.0).collect();
    assert_eq!(
        ids,
        vec![
            &Identity::Authored("R1".to_string()),
            &Identity::Synthesized {
                parent: "U1".to_string(),
                role: "decouple".to_string(),
                index: 2
            },
            &Identity::Authored("C8".to_string()),
        ]
    );
    assert!(prior_of_symbols(&vec![]).is_empty());
}

fn comp(part: &str, pins: &[(&str, &str)]) -> Component {
    Component {
        part: part.to_string(),
        value: Some("1k".to_string()),
        pins: pins.iter().map(|(p, n)| (p.to_string(), PinTarget::Net(n.to_string()))).collect(),
        units: vec![],
        origin: Origin::Authored,
        rail_span: false,
    }
}

fn pin(number: &str, y: i64, angle: i32) -> PinGeom {
    PinGeom { number: number.to_string(), name: "~".to_string(), at: at(0, y), angle }
}

fn geometry(lib: &str, pins: Vec<PinGeom>) -> SymbolGeometry {
    SymbolGeometry {
        lib_id: lib.to_string(),
        raw_definition: format!("(symbol \"{lib}\")"),
        width: 508_000,
        height: 1_016_000,
        pins,
    }
}

fn gallery() -> Gallery {
    Gallery {
        symbols: vec![
            geometry("Device:R", vec![pin("1", 381, 270), pin("2", -381, 90)]),
            geometry("power:GND", vec![pin("1", 0, 270)]),
            geometry("power:VCC", vec![pin("1", 0, 90)]),
            geometry("power:PWR_FLAG", vec![pin("1", 0, 90)]),
        ],
    }
}

fn provider() -> Provider {
    let meta = |lib: &str, pins: Vec<(&str, PinKind)>| SymbolMeta {
        lib_id: lib.to_string(),
        pins: pins
            .into_iter()
            .map(|(n, k)| PinMeta { number: n.to_string(), name: "~".to_string(), kind: k })
            .collect(),
    };
    Provider {
        symbols: vec![
            meta("Device:R", vec![("1", PinKind::Other), ("2", PinKind::Other)]),
            meta("power:GND", vec![("1", PinKind::PowerInput)]),
        ],
    }
}

fn design() -> Design {
    Design {
        name: None,
        blocks: vec![(
            "main".to_string(),
            Block {
                components: vec![
                    ("R1".to_string(), comp("Device:R", &[("1", "VIN"), ("2", "MID")])),
                    ("R2".to_string(), comp("Device:R", &[("1", "MID"), ("2", "GND")])),
                ],
                edge: "None".to_string(),
                near: "None".to_string(),
                note: Some("a divider".to_string()),
            },
        )],
        nets: vec![
            ("VIN".to_string(), false),
            ("MID".to_string(), false),
            ("GND".to_string(), true),
        ],
    }
}

fn inputs() -> GrammarInputs {
    GrammarInputs {
        sizes: vec![],
        graphs: vec![(
            "main".to_string(),
            BlockGraph { anchors: vec![], clusters: vec![], degradations: vec!["block main: x".to_string()] },
        )],
        geoms: vec![],
        members: vec![],
        covered: vec![],
    }
}

fn placed() -> Layout {
    Layout {
        positions: vec![
            ("R1".to_string(), at(5080, 5080)),
            ("R2".to_string(), at(5080, 10160)),
        ],
        angles: vec![],
        cluster_origins: vec![],
        joins: vec![],
    }
}

fn write(prior: &Vec<PriorSymbol>, relayout: Relayout, routes: Vec<NetRoute>) -> EmitOutput {
    emit_design_reconciled(
        &gallery(),
        &provider(),
        &design(),
        &inputs(),
        &placed(),
        &prior_of_symbols(prior),
        &relayout,
        &routes,
    )
    .unwrap()
}

#[test]
fn a_circuit_is_written_with_frames_flags_and_labels() {
    let out = write(&vec![], Relayout::Keep, vec![]);
    assert!(out.sch.contains("(at 50.8 50.8 0)"));
    assert!(out.sch.contains("#PWR_R2_2_0"));
    assert!(out.sch.contains("#FLG01"));
    assert!(out.sch.contains("(label \"VIN\""));
    assert!(out.sch.contains("a divider"));
    assert!(out.layout_warnings.contains(&"grammar: block main: x".to_string()));
    assert!(out
        .layout_warnings
        .contains(&"route: block main: net MID fell back to labels".to_string()));
    assert!(out.relayout_blocks.is_empty());
}

#[test]
fn a_routed_net_has_no_label() {
    let route = NetRoute {
        net: "MID".to_string(),
        paths: vec![vec![at(5080, 5461), at(5080, 9779)]],
        junctions: vec![],
    };
    let out = write(&vec![], Relayout::Keep, vec![route]);
    assert!(!out.sch.contains("(label \"MID\""));
    assert!(out.layout_warnings.iter().all(|w| !w.contains("fell back")));
}

#[test]
fn moved_components_keep_their_places() {
    let moved = |rev: &str| {
        let mut p = symbol(Some("R1"), &[("ap_role", "authored"), ("ap_layout_rev", rev)]);
        p.at = Some(at(12700, 12700));
        p.angle = Some(90);
        p
    };
    let d = design();
    let block = &d.blocks[0].1;
    let rev = layout_rev(block, &block.components[0].1, None);
    let out = write(&vec![moved(&rev)], Relayout::Keep, vec![]);
    assert!(out.sch.contains("(at 127 127 90)"));
    assert!(out.relayout_blocks.is_empty());

    let out = write(&vec![moved("other")], Relayout::Keep, vec![]);
    assert!(!out.sch.contains("(at 127 127 90)"));
    assert_eq!(out.relayout_blocks, vec![("main".to_string(), 1)]);

    let out = write(&vec![moved(&rev)], Relayout::Blocks(vec!["main".to_string()]), vec![]);
    assert_eq!(out.relayout_blocks, vec![("main".to_string(), 1)]);

    let p = resolve_placement(
        &prior_of_symbols(&vec![moved(&rev)]),
        &placed(),
        &Relayout::All,
        "main",
        block,
        "R1",
        &block.components[0].1,
    );
    assert_eq!(p.at, at(5080, 5080));
    assert!(p.replaced);
}

#[test]
fn writing_twice_gives_the_same_sheet() {
    let a = write(&vec![], Relayout::Keep, vec![]);
    let b = write(&vec![], Relayout::Keep, vec![]);
    assert_eq!(a.sch, b.sch);
}

#[test]
fn revisions_follow_the_structure() {
    let chain = |net: &str| Cluster {
        chains: vec![Chain {
            class: "Series".to_string(),
            links: vec![Link {
                refdes: "R1".to_string(),
                a_pin: "1".to_string(),
                a_net: "A".to_string(),
                b_pin: "2".to_string(),
                b_net: net.to_string(),
            }],
        }],
        banks: vec![],
        members: vec!["R1".to_string()],
    };
    assert_eq!(grammar_rev(&chain("B")), grammar_rev(&chain("B")));
    assert_ne!(grammar_rev(&chain("B")), grammar_rev(&chain("C")));
    assert_eq!(
        grammar_rev(&chain("B")),
        sch_engine::ids::stable_uuid("grammar_rev", "chain[Series]:R1(A->B)|")
    );
}

#[test]
fn rails_have_symbols() {
    let p = provider();
    assert_eq!(power_lib_id("GND", &p), "power:GND");
    assert_eq!(power_lib_id("AGND", &p), "power:GND");
    assert_eq!(power_lib_id("VBUS", &p), "power:VCC");
}

#[test]
fn rail_spanning_parts_stand_with_ground_down() {
    let mut c = comp("Device:R", &[("1", "GND"), ("2", "VCC")]);
    assert_eq!(initial_angle(&c), 0);
    c.rail_span = true;
    assert_eq!(initial_angle(&c), 180);
}

#[test]
fn cluster_keys_hold_block_and_number() {
    assert_eq!(cluster_key("a", 12), "a\u{0}12");
}

#[test]
fn clusters_follow_their_first_member() {
    let mut d = design();
    d.blocks[0].1.note = None;
    let mut gi = inputs();
    let g = {
        let mut g = sch_engine::kernel::ClusterGeom::new();
        g.placements.push(("R1".to_string(), at(254, 381), 0));
        g.wires.push((at(254, 762), at(508, 762), "MID".to_string()));
        g.ports.push(("GND".to_string(), at(254, 0)));
        g
    };
    gi.graphs[0].1.clusters.push(Cluster {
        chains: vec![],
        banks: vec![],
        members: vec!["R1".to_string()],
    });
    gi.geoms = vec![("main".to_string(), vec![g])];
    gi.members = sch_engine::cluster_geom::list_members(&gi.geoms);
    let mut p = symbol(Some("R1"), &[("ap_role", "authored")]);
    p.at = Some(at(12700, 12700));
    let out = emit_design_reconciled(
        &gallery(),
        &provider(),
        &d,
        &gi,
        &placed(),
        &prior_of_symbols(&vec![p]),
        &Relayout::Keep,
        &vec![],
    )
    .unwrap();
    assert!(out.sch.contains("(at 127 127 0)"));
    assert!(out.sch.contains("#PWR_CL01"));
    assert!(out.sch.contains("(at 127 123.19 0)"));
}
