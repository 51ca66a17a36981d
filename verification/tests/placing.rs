use sch_engine::emit::snap_point;
use sch_engine::geom::Pt;
use sch_engine::kernel::{
    Block, BlockGraph, Cluster, ClusterGeom, Component, Design, Origin, PinTarget,
};
use sch_engine::place::{band_rank, block_units, cell_of, pack_units, place, snap_up, Unit};
use sch_engine::reconcile::{cluster_key, Layout};

fn part(lib: &str, nets: &[(&str, &str)]) -> Component {
    Component {
        part: lib.to_string(),
        value: None,
        pins: nets
            .iter()
            .map(|(p, n)| (p.to_string(), PinTarget::Net(n.to_string())))
            .collect(),
        units: vec![],
        origin: Origin::Authored,
        rail_span: false,
    }
}

fn child(lib: &str, parent: &str) -> Component {
    let mut c = part(lib, &[("1", "3V3"), ("2", "GND")]);
    c.origin = Origin::Synthesized {
        parent: parent.to_string(),
        role: "decouple".to_string(),
        index: 0,
    };
    c
}

fn block(edge: &str, parts: Vec<(&str, Component)>) -> Block {
    Block {
        components: parts.into_iter().map(|(r, c)| (r.to_string(), c)).collect(),
        edge: edge.to_string(),
        near: "None".to_string(),
        note: None,
    }
}

fn design(blocks: Vec<(&str, Block)>) -> Design {
    Design {
        name: Some("t".to_string()),
        blocks: blocks.into_iter().map(|(n, b)| (n.to_string(), b)).collect(),
        nets: vec![],
    }
}

fn graph(anchors: &[&str], clusters: Vec<Cluster>) -> BlockGraph {
    BlockGraph {
        anchors: anchors.iter().map(|a| a.to_string()).collect(),
        clusters,
        degradations: vec![],
    }
}

fn cluster(members: &[&str]) -> Cluster {
    Cluster {
        chains: vec![],
        banks: vec![],
        members: members.iter().map(|m| m.to_string()).collect(),
    }
}

fn r(net: &str) -> Component {
    part("Device:R", &[("1", net), ("2", "GND")])
}

fn small_two_block_design() -> Design {
    design(vec![
        ("a", block("None", vec![("R1", r("N1")), ("R2", r("N2")), ("C1", r("N1"))])),
        ("b", block("None", vec![("R3", r("N3")), ("R4", r("N4"))])),
    ])
}

fn no_grammar(d: &Design) -> Vec<(String, BlockGraph)> {
    d.blocks.iter().map(|(n, _)| (n.clone(), graph(&[], vec![]))).collect()
}

fn spot(l: &Layout, name: &str) -> Pt {
    l.positions.iter().find(|(n, _)| n == name).unwrap().1
}

const COMP_HALF: i64 = 500_000;

fn overlaps(a: Pt, b: Pt) -> bool {
    (a.x - b.x).abs() < 2 * COMP_HALF && (a.y - b.y).abs() < 2 * COMP_HALF
}

#[test]
fn places_blocks_into_non_overlapping_regions_on_grid() {
    let d = small_two_block_design();
    let l = place(&d, &vec![], &no_grammar(&d), &vec![]);
    let total: usize = d.blocks.iter().map(|(_, b)| b.components.len()).sum();
    assert_eq!(l.positions.len(), total);
    for (_, p) in &l.positions {
        assert_eq!(*p, snap_point(*p));
    }
    for i in 0..l.positions.len() {
        for j in (i + 1)..l.positions.len() {
            assert!(!overlaps(l.positions[i].1, l.positions[j].1));
        }
    }
    let again = place(&d, &vec![], &no_grammar(&d), &vec![]);
    assert_eq!(l.positions, again.positions);
    assert_eq!(l.angles, again.angles);
    assert_eq!(l.cluster_origins, again.cluster_origins);
}

#[test]
fn cluster_members_place_at_origin_plus_local_offset() {
    let d = design(vec![(
        "a",
        block("None", vec![("C1", r("3V3")), ("C2", r("3V3"))]),
    )]);
    let graphs = vec![("a".to_string(), graph(&[], vec![cluster(&["C1", "C2"])]))];
    let mut g = ClusterGeom::new();
    g.placements.push(("C1".to_string(), Pt { x: 254_000, y: 508_000 }, 0));
    g.placements.push(("C2".to_string(), Pt { x: 1_270_000, y: 508_000 }, 180));
    g.envelope = Pt { x: 2_032_000, y: 1_524_000 };
    let geoms = vec![("a".to_string(), vec![g])];
    let l = place(&d, &vec![], &graphs, &geoms);
    let key = cluster_key("a", 0);
    let o = l.cluster_origins.iter().find(|(k, _)| *k == key).unwrap().1;
    assert_eq!(o, Pt { x: 2_540_000, y: 2_540_000 });
    assert_eq!(spot(&l, "C1"), snap_point(Pt { x: o.x + 254_000, y: o.y + 508_000 }));
    assert_eq!(spot(&l, "C2"), Pt { x: 3_810_000, y: 3_048_000 });
    assert!(l.angles.iter().any(|(n, a)| n == "C2" && *a == 180));
    assert!(l.angles.iter().any(|(n, _)| n == "C1"));
}

#[test]
fn rows_center_units_vertically() {
    let d = design(vec![(
        "a",
        block(
            "None",
            vec![
                ("U1", part("Mock:BIG", &[("A", "N1"), ("B", "N2"), ("C", "N3"), ("D", "N4")])),
                ("U2", part("Mock:SMALL", &[("A", "N5"), ("B", "N6"), ("C", "N7")])),
            ],
        ),
    )]);
    let sizes = vec![
        ("U1".to_string(), (1_000_000, 12_000_000)),
        ("U2".to_string(), (1_000_000, 1_000_000)),
    ];
    let graphs = vec![("a".to_string(), graph(&["U1", "U2"], vec![]))];
    let l = place(&d, &sizes, &graphs, &vec![]);
    let (u1, u2) = (spot(&l, "U1"), spot(&l, "U2"));
    assert!((u1.y - u2.y).abs() < 510_000);
    assert!(u1.x < u2.x);
}

#[test]
fn edge_hints_push_blocks_to_sheet_sides() {
    let d = design(vec![
        ("a", block("Some(Left)", vec![("R1", r("N1")), ("R2", r("N2"))])),
        ("b", block("Some(Right)", vec![("R3", r("N3")), ("R4", r("N4"))])),
    ]);
    let l = place(&d, &vec![], &no_grammar(&d), &vec![]);
    assert!(spot(&l, "R1").x + spot(&l, "R2").x <= spot(&l, "R3").x + spot(&l, "R4").x);
    let e = design(vec![
        ("b", block("Some(Right)", vec![("R3", r("N3"))])),
        ("a", block("Some(Left)", vec![("R1", r("N1"))])),
    ]);
    let l = place(&e, &vec![], &no_grammar(&e), &vec![]);
    assert!(spot(&l, "R1").x < spot(&l, "R3").x);
}

#[test]
fn clusters_follow_the_anchor_they_were_made_for() {
    let b = block(
        "None",
        vec![
            ("U1", part("X", &[])),
            ("U2", part("X", &[])),
            ("C1", child("Device:C", "U2")),
            ("C2", r("N")),
        ],
    );
    let g = graph(&["U1", "U2"], vec![cluster(&["C2"]), cluster(&["C1"])]);
    assert_eq!(
        block_units(&b, &g),
        vec![
            Unit::Anchor("U1".to_string()),
            Unit::Anchor("U2".to_string()),
            Unit::Cluster(1),
            Unit::Cluster(0),
        ]
    );
}

#[test]
fn bands_and_cells() {
    assert_eq!(band_rank("Some(Left)"), 0);
    assert_eq!(band_rank("Some(Top)"), 1);
    assert_eq!(band_rank("Some(Bottom)"), 2);
    assert_eq!(band_rank("None"), 3);
    assert_eq!(band_rank("Some(Right)"), 4);
    assert_eq!(snap_up(254_001), 508_000);
    assert_eq!(snap_up(254_000), 254_000);
    assert_eq!(snap_up(-1), 0);
    assert_eq!(cell_of("U9", &vec![]), (2_540_000, 2_540_000));
    let sizes = vec![("U1".to_string(), (508_000, 1_016_000))];
    assert_eq!(cell_of("U1", &sizes), (2_032_000, 2_540_000));
}

#[test]
fn rows_wrap_at_about_a_square() {
    let r = pack_units(&vec![(10, 10), (10, 10), (10, 4), (10, 10)]);
    assert_eq!(r.places, vec![(0, 0), (0, 20), (0, 40), (0, 48)]);
    assert_eq!((r.width, r.height), (10, 34));
    let r = pack_units(&vec![(10, 40), (10, 10), (10, 10)]);
    assert_eq!(r.places, vec![(0, 0), (20, 30), (0, 80)]);
    assert_eq!((r.width, r.height), (20, 50));
}
