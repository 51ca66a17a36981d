use sch_engine::emit::{
    pin_endpoint, quantize_dir, snap_point, Dir, EmitError, Gallery, PinGeom, PinLabel,
    SchematicWriter, SymbolGeometry,
};
use sch_engine::geom::Pt;
use sch_engine::render::{escape_sexpr_string, render_label};

fn pt(x: i64, y: i64) -> Pt {
    Pt { x, y }
}

/// A point in hundredths of a millimetre.
fn at(x: i64, y: i64) -> Pt {
    pt(x * 1000, y * 1000)
}

fn pin_at(x: i64, y: i64) -> PinGeom {
    PinGeom { number: "1".to_string(), name: "~".to_string(), at: at(x, y), angle: 0 }
}

fn pin(number: &str, y: i64, angle: i32) -> PinGeom {
    PinGeom { number: number.to_string(), name: "~".to_string(), at: at(0, y), angle }
}

fn gallery() -> Gallery {
    Gallery {
        symbols: vec![SymbolGeometry {
            lib_id: "Device:R".to_string(),
            raw_definition: "(symbol \"Device:R\")".to_string(),
            width: 508_000,
            height: 1_016_000,
            pins: vec![pin("1", 381, 270), pin("2", -381, 90)],
        }],
    }
}

#[test]
fn escapes_free_form_strings_in_output() {
    let g = gallery();
    let mut w = SchematicWriter::new();
    w.add_symbol(&g, "Device:R", "R1", "4.7\"", at(12700, 6350), 0).unwrap();
    let text = w.finish();
    assert!(text.contains("4.7\\\""), "value quote must be escaped (expected `4.7\\\"`):\n{text}");
    let read = sch_engine::sexp::loads(&text).expect("the document must parse");
    assert_eq!(read.tag(), "kicad_sch");
}

#[test]
fn escape_sexpr_string_backslash_then_quote() {
    assert_eq!(escape_sexpr_string("a"), "a");
    assert_eq!(escape_sexpr_string("4.7\""), "4.7\\\"");
    assert_eq!(escape_sexpr_string("a\\b"), "a\\\\b");
    assert_eq!(escape_sexpr_string("\\\""), "\\\\\\\"");
}

#[test]
fn pin_endpoint_angle0_matches_spike() {
    let p = pin_at(0, 381);
    assert_eq!(pin_endpoint(&p, at(12700, 6350), 0, false), at(12700, 5969));
    let p2 = pin_at(0, -381);
    assert_eq!(pin_endpoint(&p2, at(12700, 6350), 0, false), at(12700, 6731));
}

#[test]
fn pin_endpoint_rotations() {
    let p = pin_at(0, 381);
    let inst = at(12700, 6350);
    assert_eq!(pin_endpoint(&p, inst, 90, false), at(12319, 6350));
    assert_eq!(pin_endpoint(&p, inst, 180, false), at(12700, 6731));
    assert_eq!(pin_endpoint(&p, inst, 270, false), at(13081, 6350));
}

#[test]
fn pin_endpoint_mirror_negates_local_x() {
    let p = pin_at(254, 0);
    let inst = at(12700, 6350);
    assert_eq!(pin_endpoint(&p, inst, 0, false), at(12954, 6350));
    assert_eq!(pin_endpoint(&p, inst, 0, true), at(12446, 6350));
}

#[test]
fn reemit_is_byte_identical() {
    let g = gallery();
    let build = || {
        let mut w = SchematicWriter::new();
        w.add_symbol(&g, "Device:R", "R1", "1k", at(12700, 6350), 0).unwrap();
        w.add_symbol(&g, "Device:R", "R2", "4.7k", at(10160, 6350), 90).unwrap();
        w.finish()
    };
    assert_eq!(build(), build(), "re-emit must be byte-identical");
}

#[test]
fn label_orientation_per_direction() {
    let mk = |dir| PinLabel {
        net: "X".to_string(),
        at: pt(0, 0),
        key: "k".to_string(),
        dir,
        stub: None,
    };
    assert!(render_label(&mk(Dir::East)).contains("(at 0 0 0)"));
    assert!(render_label(&mk(Dir::East)).contains("justify left"));
    assert!(render_label(&mk(Dir::West)).contains("(at 0 0 180)"));
    assert!(render_label(&mk(Dir::West)).contains("justify right"));
    assert!(render_label(&mk(Dir::North)).contains("(at 0 0 90)"));
    assert!(render_label(&mk(Dir::South)).contains("(at 0 0 270)"));
    assert!(render_label(&mk(Dir::North)).contains("justify left"));
    assert!(render_label(&mk(Dir::South)).contains("justify right"));
}

#[test]
fn layout_lint_flags_overlapping_text() {
    let g = gallery();
    let mut w = SchematicWriter::new();
    w.add_symbol(&g, "Device:R", "R1", "1k", at(12700, 6350), 0).unwrap();
    w.add_symbol(&g, "Device:R", "R2", "2k", at(12700, 6477), 0).unwrap();
    let warnings = w.layout_warnings();
    assert!(
        warnings.iter().any(|s| s.contains("R1") && s.contains("R2")),
        "expected an R1/R2 overlap warning, got {warnings:?}"
    );
    let mut w = SchematicWriter::new();
    w.add_symbol(&g, "Device:R", "R1", "1k", at(12700, 6350), 0).unwrap();
    w.add_symbol(&g, "Device:R", "R2", "2k", at(17780, 6350), 0).unwrap();
    assert!(w.layout_warnings().is_empty());
}

#[test]
fn junctions_render_sorted_and_deduped() {
    let mut w = SchematicWriter::new();
    w.add_junction(at(5080, 2540));
    w.add_junction(at(2540, 2540));
    w.add_junction(at(5080, 2540));
    let sch = w.finish();
    let count = sch.matches("(junction").count();
    assert_eq!(count, 2);
    let first = sch.find("(at 25.4 25.4)").unwrap();
    let second = sch.find("(at 50.8 25.4)").unwrap();
    assert!(first < second, "junctions sorted by uuid_key");
}

#[test]
fn pin_outward_directions_quantize_per_rotation() {
    let g = gallery();
    let mut w = SchematicWriter::new();
    w.add_symbol(&g, "Device:R", "R1", "1k", at(12700, 6350), 0).unwrap();
    w.add_symbol(&g, "Device:R", "R2", "1k", at(10160, 6350), 90).unwrap();
    let d1 = w.pin_dirs(&g, "R1", "1").unwrap();
    assert_eq!(d1[0].dir, Dir::North, "R1 pin 1 stub should point North (up)");
    let d2 = w.pin_dirs(&g, "R2", "1").unwrap();
    assert_eq!(d2[0].dir, Dir::West, "R2 pin 1 stub should point West");
}

#[test]
fn same_net_wire_touch_survives_foreign_retracts() {
    let g = gallery();
    let mut w = SchematicWriter::new();
    w.add_symbol(&g, "Device:R", "R1", "1k", at(12700, 6350), 0).unwrap();
    w.add_symbol(&g, "Device:R", "R2", "1k", at(17780, 6350), 0).unwrap();
    w.add_signal_label(&g, "R1", "1", "SIG").unwrap();
    w.add_signal_label(&g, "R2", "1", "SIG").unwrap();
    w.add_wire_on_net(at(12192, 5588), at(13208, 5588), "SIG");
    w.add_wire_on_net(at(17272, 5588), at(18288, 5588), "OTHER");
    let sch = w.finish();
    assert!(
        sch.contains("(label \"SIG\"\n\t\t(at 177.8 59.69"),
        "R2 label must retract to its pin endpoint (177.8, 59.69):\n{sch}"
    );
    assert!(
        !sch.contains("(label \"SIG\"\n\t\t(at 127 59.69"),
        "R1 label must not retract to its pin endpoint:\n{sch}"
    );
}

#[test]
fn settling_a_sheet_twice_changes_nothing() {
    let g = gallery();
    let mut w = SchematicWriter::new();
    w.add_symbol(&g, "Device:R", "R1", "1k", at(12700, 6350), 0).unwrap();
    w.add_signal_label(&g, "R1", "1", "SIG").unwrap();
    w.add_wire_on_net(at(12192, 5588), at(13208, 5588), "OTHER");
    w.retract_colliding_stubs();
    let labels: Vec<Pt> = w.labels.iter().map(|l| l.at).collect();
    let wires = w.wires.len();
    w.retract_colliding_stubs();
    assert_eq!(labels, w.labels.iter().map(|l| l.at).collect::<Vec<_>>());
    assert_eq!(wires, w.wires.len());
    assert_eq!(labels, vec![at(12700, 5969)]);
}

#[test]
fn what_cannot_be_placed_is_named() {
    let g = gallery();
    let mut w = SchematicWriter::new();
    match w.add_symbol(&g, "Device:C", "C1", "1u", pt(0, 0), 0) {
        Err(EmitError::NoSymbol(l)) => assert_eq!(l, "Device:C"),
        other => panic!("{other:?}"),
    }
    match w.add_no_connect(&g, "R9", "1") {
        Err(EmitError::NoInstance(r)) => assert_eq!(r, "R9"),
        other => panic!("{other:?}"),
    }
    w.add_symbol(&g, "Device:R", "R1", "1k", pt(0, 0), 0).unwrap();
    match w.add_pin_label(&g, "R1", "7", "N") {
        Err(EmitError::NoPin(p, l)) => assert_eq!((p.as_str(), l.as_str()), ("7", "Device:R")),
        other => panic!("{other:?}"),
    }
}

#[test]
fn points_snap_to_the_nearest_grid_line() {
    assert_eq!(snap_point(pt(63_499, -63_499)), pt(0, 0));
    assert_eq!(snap_point(pt(63_500, -63_500)), pt(127_000, -127_000));
    assert_eq!(snap_point(pt(1_000_000, 0)), pt(1_016_000, 0));
}

#[test]
fn directions_are_quantized_to_quarters() {
    assert_eq!(quantize_dir(270, 0, false), Dir::North);
    assert_eq!(quantize_dir(0, 0, false), Dir::West);
    assert_eq!(quantize_dir(0, 0, true), Dir::East);
    assert_eq!(quantize_dir(90, 90, false), Dir::East);
}
