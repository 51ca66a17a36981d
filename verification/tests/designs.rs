use sch_engine::arrange::{
    best_trial, note_of_enlarging, note_of_paper, pack_trials, papers_to_enlarge, papers_to_try,
};
use sch_engine::flow::{failed_report, raw_boxes, small_design, split_messages};
use sch_engine::geo::{Geo, Session};
use sch_engine::geo_json::{add_drawing, sheet_design};
use sch_engine::geom::{BBox, Pt};
use sch_engine::json::Json;
use sch_engine::pack::Area;
use sch_engine::reader::{read_circuit, read_tree, show, truthy};
use sch_engine::symlib::SymbolIndex;

fn s(t: &str) -> Json {
    Json::Str(t.to_string())
}

fn obj(v: Vec<(&str, Json)>) -> Json {
    Json::Obj(v.into_iter().map(|(k, x)| (k.to_string(), x)).collect())
}

fn point(x: i64, y: i64) -> Json {
    Json::Arr(vec![Json::Int(x), Json::Int(y)])
}

fn no_symbols() -> SymbolIndex {
    SymbolIndex { symbols: vec![] }
}

#[test]
fn values_are_shown_as_text() {
    assert_eq!(show(&s("10k")), "10k");
    assert_eq!(show(&Json::Bool(true)), "True");
    assert_eq!(show(&Json::Null), "None");
    assert_eq!(show(&Json::Int(7)), "7");
    assert_eq!(show(&Json::Arr(vec![s("a\"b")])), "[\"a\\\"b\"]");
    assert!(!truthy(None));
    assert!(!truthy(Some(&s(""))));
    assert!(truthy(Some(&Json::Int(2))));
}

#[test]
fn trees_are_read_with_their_defaults() {
    let t = read_tree(&obj(vec![
        (
            "row",
            Json::Arr(vec![
                obj(vec![("part", s("U1")), ("unit", Json::Int(2)), ("rot", Json::Int(90))]),
                obj(vec![("col", Json::Arr(vec![])), ("gap", Json::Int(4))]),
            ]),
        ),
        ("align", s("start")),
    ]));
    assert!(t.is_row && !t.is_col);
    assert_eq!(t.row.len(), 2);
    assert_eq!(t.style.align, "start");
    assert_eq!(t.style.gap, 8 * 127_000);
    assert_eq!(t.style.wrap, 150 * 127_000);
    assert_eq!(t.row[0].style.part, Some("U1".to_string()));
    assert_eq!(t.row[0].style.unit, 2);
    assert_eq!(t.row[0].style.rot, Some(90));
    assert_eq!(t.row[0].style.mirror, None);
    assert!(t.row[1].is_col);
    assert_eq!(t.row[1].style.gap, 4 * 127_000);
}

#[test]
fn circuits_are_read_from_designs() {
    let d = obj(vec![
        (
            "parts",
            Json::Arr(vec![obj(vec![
                ("id", s("R1")),
                ("lib", s("Device:R")),
                ("pins", obj(vec![("1", s("VCC")), ("2", Json::Null)])),
                ("value", Json::Int(100)),
            ])]),
        ),
        ("flags", Json::Arr(vec![s("VCC")])),
        (
            "layout",
            Json::Arr(vec![obj(vec![
                ("title", s("MAIN")),
                ("note", s("")),
                ("tree", obj(vec![("part", s("R1"))])),
            ])]),
        ),
        ("notes", Json::Arr(vec![s("one"), s(""), Json::Int(2)])),
    ]);
    let c = read_circuit(&d);
    assert_eq!(c.parts.len(), 1);
    assert_eq!(c.parts[0].id, Some("R1".to_string()));
    assert_eq!(c.parts[0].unit, 1);
    assert_eq!(
        c.parts[0].pins,
        vec![("1".to_string(), Some("VCC".to_string())), ("2".to_string(), None)]
    );
    assert_eq!(c.parts[0].value, Some("100".to_string()));
    assert_eq!(c.parts[0].footprint, None);
    assert_eq!(c.flags, vec!["VCC".to_string()]);
    assert!(c.power.is_empty());
    assert_eq!(c.layout[0].title, "MAIN");
    assert_eq!(c.layout[0].note, None);
    assert!(c.layout[0].has_tree);
    assert_eq!(c.notes, vec!["one".to_string(), "2".to_string()]);
}

#[test]
fn notes_are_told_from_faults() {
    let v = vec!["note: a".to_string(), "b".to_string(), "note: c".to_string()];
    let (notes, hard) = split_messages(&v);
    assert_eq!(notes, vec!["note: a".to_string(), "note: c".to_string()]);
    assert_eq!(hard, vec!["b".to_string()]);
    let r = failed_report(obj(vec![("paper", s("A3"))]), &v);
    assert!(!r.is_clean());
    assert_eq!(r.issues, vec!["b".to_string()]);
    assert_eq!(r.paper, "A3");
    assert_eq!(r.netlist_text(10), "");
    let r = failed_report(obj(vec![]), &vec![]);
    assert!(r.is_clean());
    assert_eq!(r.paper, "A4");
}

#[test]
fn papers_and_their_notes() {
    let name = |v: Vec<String>| v.join(" ");
    assert_eq!(name(papers_to_try("A4", true)), "A5 A4 A3 A2");
    assert_eq!(name(papers_to_try("A4", false)), "A4 A3 A2");
    assert_eq!(name(papers_to_try("A3", true)), "A3 A4 A2");
    assert_eq!(name(papers_to_enlarge("A3")), "A3 A2");
    assert_eq!(note_of_paper("A4", "A4"), None);
    assert_eq!(note_of_paper("A4", "A5"), Some("note: small design: paper set to A5".to_string()));
    assert_eq!(
        note_of_paper("A4", "A3"),
        Some("note: content did not fit on A4; paper changed to A3".to_string())
    );
    assert_eq!(
        note_of_enlarging("A4", "A3"),
        "note: no free space on A4; paper enlarged to A3 (existing content kept in place)"
    );
}

fn square(side: i64) -> Geo {
    let mut g = Geo::new();
    g.add_wire(&vec![Pt { x: 0, y: 0 }, Pt { x: side, y: side }]);
    g
}

fn a4() -> Area {
    let p = sch_engine::geo::paper("A4").unwrap();
    Area {
        x0: 14 * 127_000,
        y0: 14 * 127_000,
        xmax: p.xmax,
        ymax: p.ymax,
        tbx: p.tbx,
        tby: p.tby,
    }
}

#[test]
fn packed_sheets_stay_on_their_paper() {
    let geos = vec![square(20 * 127_000), square(30 * 127_000)];
    assert!(small_design(&geos));
    let a = a4();
    let mut trials = pack_trials(&geos, &a, &vec![]);
    assert!(!trials.is_empty());
    let best = best_trial(&trials.iter().map(|t| t.order as i64).collect()).unwrap();
    assert_eq!(best, 0);
    assert_eq!(best_trial(&vec![3, 1, 2, 1]), Some(1));
    assert_eq!(best_trial(&vec![]), None);
    let t = trials.swap_remove(best);
    let sheet = sch_engine::arrange::arrange(&geos, t, &a, true, true);
    let b = sheet.bbox();
    assert!(b.x1 <= a.xmax && b.y1 <= a.ymax);
    let out = sheet_design(&sheet, "A4", &obj(vec![("title", s("T")), ("other", s("x"))]));
    assert_eq!(out.get("paper").and_then(|p| p.as_str()), Some(&"A4".to_string()));
    assert_eq!(out.get("title").and_then(|p| p.as_str()), Some(&"T".to_string()));
    assert!(out.get("other").is_none());
    assert_eq!(out.get("wires").and_then(|w| w.as_array()).map(|w| w.len()), Some(2));
}

#[test]
fn drawings_are_added_behind_what_is_there() {
    let raw = obj(vec![
        ("wires", Json::Arr(vec![Json::Arr(vec![point(0, 0), point(1, 0)])])),
        ("paper", s("A4")),
    ]);
    let out = add_drawing(&raw, &square(127_000), "A3");
    assert_eq!(out.get("paper").and_then(|p| p.as_str()), Some(&"A3".to_string()));
    let wires = out.get("wires").and_then(|w| w.as_array()).unwrap();
    assert_eq!(wires.len(), 2);
    assert!(wires[0].is_alike(&Json::Arr(vec![point(0, 0), point(1, 0)])));
}

#[test]
fn rooms_of_a_design() {
    let raw = obj(vec![
        ("wires", Json::Arr(vec![Json::Arr(vec![point(2, 2), point(6, 2)])])),
        ("labels", Json::Arr(vec![obj(vec![("at", point(10, 10)), ("text", s("A"))])])),
        ("texts", Json::Arr(vec![obj(vec![("at", point(0, 0)), ("text", s("ab\nc"))])])),
    ]);
    let r = raw_boxes(&raw, &Session::new(), &no_symbols());
    assert_eq!(r.len(), 3);
    assert_eq!(r[0], BBox { x0: 190_500, y0: 190_500, x1: 825_500, y1: 317_500 });
    assert_eq!(r[1], BBox { x0: 635_000, y0: 762_000, x1: 1_905_000, y1: 1_778_000 });
    assert_eq!(r[2], BBox { x0: 0, y0: -254_000, x1: 368_300, y1: 508_000 });
}
