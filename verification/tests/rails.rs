use sch_engine::emit::{Dir, EmitError, Gallery, PinGeom, SchematicWriter, SymbolGeometry, Wire};
use sch_engine::floorplan::{normalize, Band, Side};
use sch_engine::geom::Pt;
use sch_engine::plan_cost::{
    count_merges, count_shorts, layout_cost, overlaps_any, wire_length, Body, PlanCounts,
};
use sch_engine::rails::{assign_rail_levels, emit_rail, port_exit_point, power_lib_id, End};
use sch_engine::sexp::{dumps, loads};

/// A point in grid steps.
fn at(x: i64, y: i64) -> Pt {
    Pt { x: x * 127_000, y: y * 127_000 }
}

fn ends(v: &[(i64, i64)]) -> Vec<End> {
    v.iter().map(|(x, y)| (at(*x, *y), Dir::North)).collect()
}

fn wire(a: Pt, b: Pt, net: &str) -> Wire {
    Wire { a, b, key: String::new(), net: Some(net.to_string()) }
}

fn gallery() -> Gallery {
    Gallery {
        symbols: vec![SymbolGeometry {
            lib_id: "power:GND".to_string(),
            raw_definition: "(symbol \"power:GND\")".to_string(),
            width: 254_000,
            height: 254_000,
            pins: vec![PinGeom {
                number: "1".to_string(),
                name: "GND".to_string(),
                at: at(0, 0),
                angle: 270,
            }],
        }],
    }
}

#[test]
fn overlapping_rails_run_on_different_lines() {
    let e = vec![
        ("A".to_string(), ends(&[(0, 10), (4, 12), (8, 10)])),
        ("B".to_string(), ends(&[(6, 10), (10, 10), (20, 10)])),
        ("C".to_string(), ends(&[(12, 10), (13, 10), (16, 11)])),
        ("D".to_string(), ends(&[(0, 10), (1, 10)])),
    ];
    let rails: Vec<(String, Band)> =
        ["A", "B", "C", "D"].iter().map(|n| (n.to_string(), Band::Top)).collect();
    let r = assign_rail_levels(&e, &rails);
    assert_eq!(
        r,
        vec![
            ("A".to_string(), 1_270_000 - 508_000),
            ("B".to_string(), 1_270_000 - 508_000 - 635_000),
            ("C".to_string(), 1_270_000 - 508_000),
        ]
    );
    let down = vec![("A".to_string(), Band::Bottom)];
    assert_eq!(
        assign_rail_levels(&e, &down),
        vec![("A".to_string(), 12 * 127_000 + 508_000)]
    );
}

#[test]
fn a_rail_of_three_pins_is_a_wire() {
    let g = gallery();
    let mut w = SchematicWriter::new();
    let v = vec![(at(0, 0), Dir::South), (at(4, 0), Dir::East), (at(8, 0), Dir::South)];
    let r = emit_rail(&g, &mut w, "GND", &v, Some(1_270_000), true).unwrap();
    assert_eq!(r, Some(Pt { x: -508_000, y: 1_270_000 }));
    assert_eq!(w.instances.len(), 1);
    assert_eq!(w.instances[0].refdes, "#PWR_GND");
    assert_eq!(w.instances[0].lib_id, "power:GND");
    assert_eq!(w.junctions.len(), 3);
    assert_eq!(w.wires.len(), 6);
    assert!(w.wires.iter().all(|x| x.net == Some("GND".to_string())));
}

#[test]
fn fewer_pins_have_symbols_of_their_own() {
    let g = gallery();
    let mut w = SchematicWriter::new();
    let v = vec![(at(0, 0), Dir::South), (at(4, 0), Dir::East)];
    assert_eq!(emit_rail(&g, &mut w, "GND", &v, Some(0), false).unwrap(), None);
    assert_eq!(w.instances.len(), 2);
    assert_eq!(w.instances[1].refdes, "#PWR_GND_1");
    assert_eq!(w.instances[1].angle, 90);
    assert!(w.wires.is_empty());
    let e = emit_rail(&g, &mut w, "3V3", &v, None, false).unwrap_err();
    assert!(matches!(e, EmitError::NoSymbol(ref l) if l == "power:+3V3"));
}

#[test]
fn each_rail_has_a_power_symbol() {
    assert_eq!(power_lib_id("gnd1"), "power:GND");
    assert_eq!(power_lib_id("5V"), "power:+5V");
    assert_eq!(power_lib_id("VCC3V3"), "power:VCC");
}

#[test]
fn ports_leave_past_the_outermost_pin() {
    let v = ends(&[(0, 3), (10, 5), (10, 7)]);
    assert_eq!(port_exit_point(&v, Side::Right), at(16, 7));
    assert_eq!(port_exit_point(&v, Side::Left), at(-6, 3));
    assert_eq!(port_exit_point(&v, Side::Top), at(0, -3));
    assert_eq!(port_exit_point(&v, Side::Bottom), at(10, 13));
}

#[test]
fn merged_nets_are_counted() {
    let v = vec![
        wire(at(0, 0), at(10, 0), "A"),
        wire(at(5, 0), at(12, 0), "B"),
        wire(at(3, -5), at(3, 5), "C"),
    ];
    assert_eq!(count_merges(&v, &vec![]), 1);
    assert_eq!(count_merges(&v, &vec![at(3, 0), at(1, 0)]), 2);
    let pins = vec![
        ("A".to_string(), at(0, 0)),
        ("B".to_string(), at(0, 0)),
        ("C".to_string(), at(10, 0)),
    ];
    assert_eq!(count_shorts(&v, &pins), 2);
    assert_eq!(wire_length(&v), 27 * 127_000);
}

#[test]
fn plans_are_weighed() {
    let c = PlanCounts {
        merges: 1,
        fallbacks: 2,
        crossings: 3,
        congestion: 1,
        junctions: 4,
        stray: 100_000,
        length: 200_000,
    };
    assert_eq!(layout_cost(&c), 40_267_000_000);
}

#[test]
fn bodies_overlap_without_their_pins() {
    let b = |x: i64| Body { at: at(x, 0), width: 1_016_000, height: 508_000, quarter: false };
    let v = vec![b(0), b(10)];
    assert!(!overlaps_any(&v, 0, at(0, 0)));
    assert!(overlaps_any(&v, 0, at(7, 0)));
    assert!(!overlaps_any(&v, 0, at(6, 0)));
}

#[test]
fn written_lists_read_back() {
    let t = "(a \"x \\\"y\\\"\" (b 1 -2.5 (c)) d (e \"line\\nbreak\"))";
    let n = loads(t).unwrap();
    let again = loads(&dumps(&n, 1)).unwrap();
    assert_eq!(dumps(&n, 0), dumps(&again, 0));
    assert_eq!(again.child("b").unwrap().item(2).unwrap().number(), Some(-2_500_000));
}

#[test]
fn strings_read_back_unless_a_backslash_stands_before_an_n() {
    let back = |t: &str| {
        let n = sch_engine::sexp::Sexp::list(vec![sch_engine::sexp::Sexp::str(t)]);
        loads(&dumps(&n, 0)).unwrap().item(0).unwrap().text()
    };
    for t in ["", "a b", "say \"x\"", "two\nlines", "c:\\dir\\\"q\"", "\\\\", "(1)"] {
        assert_eq!(back(t), t);
    }
    assert_ne!(back("c:\\new"), "c:\\new");
}

#[test]
fn plans_begin_at_the_margin() {
    assert_eq!(normalize(&vec![at(-3, 4), at(2, 1)]), vec![at(10, 13), at(15, 10)]);
    assert!(normalize(&vec![]).is_empty());
}
