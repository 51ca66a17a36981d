use sch_engine::emit::{Dir, PinGeom, SymbolGeometry, Wire};
use sch_engine::floorplan::{
    assign_cells, baseline_ir, compute_needs_flag, nudges, orient_angle, resolve_pins,
    track_centres, Band, Cell, Flow, Item, LayoutIr, Orient, Side,
};
use sch_engine::geom::Pt;
use sch_engine::kernel::{
    Component, Design, Origin, PinKind, PinMeta, PinTarget, Provider, SymbolMeta,
};
use sch_engine::plan_cost::{
    collinear_overlap, count_close_wires, count_congestion, count_crossings, dir_toward,
    parallel_too_close, side_dir,
};

/// A point in hundredths of a millimetre.
fn at(x: i64, y: i64) -> Pt {
    Pt { x: x * 1000, y: y * 1000 }
}

fn wire(a: Pt, b: Pt, net: &str) -> Wire {
    Wire { a, b, key: String::new(), net: Some(net.to_string()) }
}

#[test]
fn a_plain_plan_has_rails() {
    let d = Design {
        name: None,
        blocks: vec![],
        nets: vec![
            ("VCC".to_string(), true),
            ("SIG".to_string(), false),
            ("GND".to_string(), true),
        ],
    };
    let ir = baseline_ir(&d);
    assert_eq!(ir.flow, Flow::Lr);
    assert_eq!(
        ir.rails,
        vec![("GND".to_string(), Band::Bottom), ("VCC".to_string(), Band::Top)]
    );
    assert!(ir.place.is_empty() && ir.ports.is_empty() && ir.mirror.is_empty());
}

fn resistor() -> SymbolGeometry {
    let pin = |n: &str, y: i64| PinGeom {
        number: n.to_string(),
        name: format!("P{n}"),
        at: at(0, y),
        angle: 0,
    };
    SymbolGeometry {
        lib_id: "Device:R".to_string(),
        raw_definition: String::new(),
        width: 0,
        height: 0,
        pins: vec![pin("1", 381), pin("2", -381)],
    }
}

#[test]
fn parts_are_turned_to_point_as_wanted() {
    let g = resistor();
    assert_eq!(orient_angle(&g, Orient::Down), 0);
    assert_eq!(orient_angle(&g, Orient::Right), 90);
    assert_eq!(orient_angle(&g, Orient::Up), 180);
    assert_eq!(orient_angle(&g, Orient::Left), 270);
}

fn item(refdes: &str, part: &str) -> Item {
    let comp = Component {
        part: part.to_string(),
        value: None,
        pins: vec![
            ("1".to_string(), PinTarget::Net("VCC".to_string())),
            ("P2".to_string(), PinTarget::Net("OUT".to_string())),
        ],
        units: vec![],
        origin: Origin::Authored,
        rail_span: false,
    };
    Item {
        refdes: refdes.to_string(),
        part: part.to_string(),
        pins: resolve_pins(&comp, &resistor()),
        at: at(0, 0),
        angle: 0,
    }
}

#[test]
fn pins_are_resolved_by_number_and_name() {
    let it = item("R1", "Device:R");
    let nets: Vec<Option<&str>> = it.pins.iter().map(|p| p.net.as_deref()).collect();
    assert_eq!(nets, vec![Some("VCC"), Some("OUT")]);
}

fn plan() -> LayoutIr {
    LayoutIr {
        flow: Flow::Lr,
        rails: vec![("GND".to_string(), Band::Bottom)],
        place: vec![("U1".to_string(), Cell { col: 3, row: 1, orient: Orient::Up })],
        ports: vec![],
        mirror: vec![],
    }
}

#[test]
fn parts_without_a_place_go_to_the_right() {
    let items = vec![item("R1", "X"), item("U1", "X"), item("R2", "X")];
    let cells = assign_cells(&items, &plan());
    assert_eq!(cells[0], Cell { col: 4, row: 0, orient: Orient::Down });
    assert_eq!(cells[1], Cell { col: 3, row: 1, orient: Orient::Up });
    assert_eq!(cells[2], Cell { col: 5, row: 0, orient: Orient::Down });
}

#[test]
fn flags_go_to_nets_that_nothing_drives() {
    let meta = |lib: &str, a: PinKind, b: PinKind| SymbolMeta {
        lib_id: lib.to_string(),
        pins: vec![
            PinMeta { number: "1".to_string(), name: String::new(), kind: a },
            PinMeta { number: "2".to_string(), name: String::new(), kind: b },
        ],
    };
    let p = Provider {
        symbols: vec![
            meta("In", PinKind::PowerInput, PinKind::PowerInput),
            meta("Out", PinKind::Other, PinKind::PowerOutput),
        ],
    };
    let items = vec![item("U1", "In"), item("U2", "Out")];
    assert_eq!(compute_needs_flag(&p, &items, &plan()), ["GND", "VCC"]);
}

#[test]
fn a_cell_has_four_neighbours() {
    let c = Cell { col: 2, row: 5, orient: Orient::Left };
    let n: Vec<(i32, i32)> = nudges(c).iter().map(|c| (c.col, c.row)).collect();
    assert_eq!(n, vec![(1, 5), (3, 5), (2, 4), (2, 6)]);
}

#[test]
fn tracks_lie_side_by_side() {
    assert_eq!(
        track_centres(&vec![(0, 1000), (3, 400)], 50),
        vec![(0, 500), (3, 1250)]
    );
}

#[test]
fn crossings_count_wires_of_different_nets() {
    let h = wire(at(0, 0), at(1000, 0), "A");
    let v = wire(at(500, -500), at(500, 500), "B");
    let own = wire(at(600, -500), at(600, 500), "A");
    assert_eq!(count_crossings(&vec![h, v, own]), 1);
}

#[test]
fn overlaps_lie_on_one_line() {
    assert!(collinear_overlap(at(0, 0), at(500, 0), at(400, 0), at(900, 0)));
    assert!(!collinear_overlap(at(0, 0), at(500, 0), at(500, 0), at(900, 0)));
    assert!(!collinear_overlap(at(0, 0), at(500, 0), at(400, 100), at(900, 100)));
}

#[test]
fn close_wires_are_counted() {
    assert!(parallel_too_close(at(0, 0), at(1000, 0), at(0, 127), at(1000, 127), 254_000));
    assert!(!parallel_too_close(at(0, 0), at(500, 0), at(0, 127), at(500, 127), 254_000));
    let v = vec![wire(at(0, 0), at(1000, 0), "A"), wire(at(0, 127), at(1000, 127), "A")];
    assert_eq!(count_close_wires(&v, &vec![(at(0, 300), at(1000, 300))]), Some(3));
}

#[test]
fn crammed_dots_are_counted() {
    assert_eq!(count_congestion(&vec![at(0, 0), at(254, 254), at(2000, 0)]), 1);
    assert_eq!(count_congestion(&vec![at(0, 0), at(381, 0)]), 0);
}

#[test]
fn directions_follow_the_longer_way() {
    assert_eq!(dir_toward(at(0, 0), at(3, 2)), Dir::East);
    assert_eq!(dir_toward(at(0, 0), at(-3, 3)), Dir::West);
    assert_eq!(dir_toward(at(0, 0), at(1, 2)), Dir::South);
    assert_eq!(dir_toward(at(0, 0), at(1, -2)), Dir::North);
    assert_eq!(side_dir(Side::Top), Dir::North);
}
