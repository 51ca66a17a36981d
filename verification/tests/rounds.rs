use sch_engine::compile::{compile_design, Shelf};
use sch_engine::emit::{Dir, PinLabel, SchematicWriter};
use sch_engine::extract::parse;
use sch_engine::flow::flex_design;
use sch_engine::geo::Geo;
use sch_engine::geom::{BBox, Pt};
use sch_engine::ids::stable_uuid;
use sch_engine::json::Json;
use sch_engine::kernel::{Bank, Cluster};
use sch_engine::model::{new_uuid, Design};
use sch_engine::order_map::OrderMap;
use sch_engine::reconcile::grammar_rev;
use sch_engine::router::{Arena, Cell};
use sch_engine::symlib::{Pin, SymbolIndex, SymbolInfo, UnitInfo};
use std::sync::Arc;

fn pin(x: i64, y: i64) -> Pin {
    Pin {
        number: "1".to_string(),
        name: "~".to_string(),
        x,
        y,
        angle: 0,
        hidden: false,
        etype: "passive".to_string(),
    }
}

fn info(lib: &str, prefix: &str, power: bool) -> Arc<SymbolInfo> {
    let b = BBox { x0: -127_000, y0: -127_000, x1: 127_000, y1: 127_000 };
    Arc::new(SymbolInfo {
        lib_id: lib.to_string(),
        ref_prefix: prefix.to_string(),
        power,
        units: vec![UnitInfo { unit: 1, pins: vec![pin(254_000, 0)], bbox: b, body: b }],
        props: vec![],
        pins: vec![pin(254_000, 0)],
        value: "stock".to_string(),
        footprint: "F:P".to_string(),
        datasheet: "http://ds".to_string(),
        description: "a part".to_string(),
    })
}

fn infos() -> OrderMap<Arc<SymbolInfo>> {
    OrderMap {
        keys: vec!["X:R".to_string(), "power:GND".to_string()],
        vals: vec![info("X:R", "R", false), info("power:GND", "#PWR", true)],
    }
}

fn shelf() -> Shelf {
    Shelf {
        own: infos(),
        stock: vec![],
        stock_infos: OrderMap { keys: vec![], vals: vec![] },
        index: SymbolIndex { symbols: vec![] },
    }
}

const SHEET: &str = r##"(kicad_sch (version 20250114) (generator "eeschema")
  (uuid "11111111-2222-3333-4444-555555555555") (paper "A3")
  (title_block (title "demo") (date "d") (rev "r") (company "c") (comment 1 "one") (comment 2 "two"))
  (lib_symbols
    (symbol "power:GND" (power) (property "Value" "GND" (at 0 0 0)))
    (symbol "X:R" (property "Reference" "R" (at 0 2.54 0)) (property "Value" "R" (at 0 -2.54 0))))
  (wire (pts (xy 10.16 20.32) (xy 30.48 20.32)) (stroke (width 0) (type default)) (uuid "w-1"))
  (symbol (lib_id "X:R") (at 50.8 50.8 90) (unit 1) (dnp yes) (uuid "p-1")
    (property "Reference" "R7" (at 50.8 45.72 0) (effects (font (size 1.27 1.27)) (justify left)))
    (property "Value" "10k" (at 50.8 55.88 0) (effects (font (size 1.27 1.27)) (hide yes)))
    (property "Footprint" "R_0603" (at 50.8 50.8 0))
    (property "MPN" "abc" (at 50.8 50.8 0))
    (property "Supplier" "x y" (at 50.8 50.8 0))
    (instances (project "demo" (path "/1111" (reference "R7") (unit 1)))))
  (symbol (lib_id "power:GND") (at 20.32 30.48 0) (unit 1) (uuid "g-1")
    (property "Reference" "#PWR05" (at 0 0 0))
    (property "Value" "GND" (at 20.32 33.02 0) (effects (font (size 1.27 1.27)) (hide yes)))
    (instances (project "demo" (path "/1111" (reference "#PWR05") (unit 1)))))
)"##;

fn shown(d: &Design) -> String {
    format!("{d:?}")
}

#[test]
fn parts_and_power_symbols_read_back() {
    let first = parse(SHEET, &infos()).unwrap();
    let (text, _) = compile_design(parse(SHEET, &infos()).unwrap(), shelf());
    let read = parse(&text, &infos()).unwrap();
    assert_eq!(read.parts.len(), 1);
    assert_eq!(read.power.len(), 1);
    let (p, q) = (&read.parts[0], &first.parts[0]);
    assert_eq!((p.id.as_str(), p.value.as_str(), p.uuid.as_str()), ("R7", "10k", "p-1"));
    assert_eq!((p.at, p.rot, p.dnp, p.hide_value), (q.at, 90, true, true));
    assert_eq!(p.footprint, "R_0603");
    let field = |k: &str| {
        p.fields.iter().find(|f| f.0 == k).and_then(|f| f.1.as_str()).map(|s| s.to_string())
    };
    assert_eq!(field("MPN"), Some("abc".to_string()));
    assert_eq!(field("Supplier"), Some("x y".to_string()));
    assert_eq!(field("Datasheet"), Some("http://ds".to_string()));
    assert_eq!(format!("{:?}", p.ref_at), format!("{:?}", q.ref_at));
    assert_eq!(format!("{:?}", p.val_at), format!("{:?}", q.val_at));
    let (g, h) = (&read.power[0], &first.power[0]);
    assert_eq!((g.net.as_str(), g.lib.as_str()), ("GND", "power:GND"));
    assert_eq!((g.reference.as_str(), g.uuid.as_str()), ("#PWR05", "g-1"));
    assert_eq!((g.at, g.rot), (h.at, 0));
    assert!(g.hide_value);
    assert_eq!((read.title.as_str(), read.date.as_str()), ("demo", "d"));
    assert_eq!((read.rev.as_str(), read.company.as_str()), ("r", "c"));
    assert_eq!(read.comments, vec!["one", "two"]);
    let names: Vec<&str> = read.lib_symbols.iter().map(|l| l.0.as_str()).collect();
    assert_eq!(names, vec!["X:R", "power:GND"]);
    assert_eq!((read.project.as_str(), read.sheet_path_uuid.as_str()), ("demo", "/1111"));
}

#[test]
fn what_was_read_is_read_again() {
    let (one, _) = compile_design(parse(SHEET, &infos()).unwrap(), shelf());
    let read = parse(&one, &infos()).unwrap();
    let (two, _) = compile_design(parse(&one, &infos()).unwrap(), shelf());
    let again = parse(&two, &infos()).unwrap();
    assert_eq!(shown(&again), shown(&read));
}

#[test]
fn identifiers_are_hexadecimal_in_lower_case() {
    for id in [stable_uuid("symbol", "X"), new_uuid()] {
        assert_eq!(id.len(), 36);
        for (i, c) in id.chars().enumerate() {
            if matches!(i, 8 | 13 | 18 | 23) {
                assert_eq!(c, '-');
            } else {
                assert!(c.is_ascii_digit() || ('a'..='f').contains(&c), "{id}");
            }
        }
    }
    assert_ne!(new_uuid(), new_uuid());
}

#[test]
fn strings_are_escaped_in_json() {
    let t = "a\"b\\c\n\t\r\u{8}\u{c}\u{1}\u{1f}/\u{7f}\u{e9}";
    assert_eq!(
        Json::Str(t.to_string()).to_text(),
        "\"a\\\"b\\\\c\\n\\t\\r\\b\\f\\u0001\\u001f/\u{7f}\u{e9}\""
    );
}

#[test]
fn members_of_a_bank_are_shown_with_escapes() {
    let c = Cluster {
        chains: vec![],
        banks: vec![Bank {
            a_net: "A".to_string(),
            b_net: "B".to_string(),
            members: vec!["C1".to_string(), "C\n\"2".to_string()],
        }],
        members: vec![],
    };
    assert_eq!(
        grammar_rev(&c),
        stable_uuid("grammar_rev", "bank[A/B]:[\"C1\", \"C\\n\\\"2\"]|")
    );
}

#[test]
fn stubs_off_the_grid_are_settled_once() {
    let mut w = SchematicWriter::new();
    w.labels.push(PinLabel {
        net: "N".to_string(),
        at: Pt { x: 254_010, y: 127_020 },
        key: "k".to_string(),
        dir: Dir::East,
        stub: Some(Pt { x: 10, y: 127_020 }),
    });
    w.retract_colliding_stubs();
    assert_eq!(w.wires.len(), 1);
    assert_eq!((w.wires[0].a, w.wires[0].b), (Pt { x: 0, y: 127_000 }, Pt { x: 254_000, y: 127_000 }));
    w.retract_colliding_stubs();
    assert_eq!(w.wires.len(), 1);
    assert!(w.labels[0].stub.is_some());
}

fn nothing() -> Geo {
    Geo {
        parts: vec![],
        power: vec![],
        wires: vec![],
        labels: vec![],
        nc: vec![],
        texts: vec![],
        rects: vec![],
        boxes: vec![],
    }
}

#[test]
fn a_design_goes_on_the_first_paper_that_takes_it() {
    let d = Json::Obj(vec![("title".to_string(), Json::Str("t".to_string()))]);
    let papers: Vec<String> = ["A4", "A3", "A2"].iter().map(|p| p.to_string()).collect();
    let (r, m) = flex_design(&d, vec!["bad".to_string()], "A4", &papers, &vec![]);
    assert!(matches!(r, Json::Obj(ref v) if v.is_empty()));
    assert_eq!(m, vec!["bad"]);
    let (r, m) = flex_design(&d, vec![], "A4", &papers, &vec![None, None, None]);
    assert!(matches!(r, Json::Obj(ref v) if v.is_empty()));
    assert_eq!(m, vec!["design does not fit even on A2"]);
    let (r, m) = flex_design(&d, vec![], "A4", &papers, &vec![Some(nothing())]);
    assert_eq!(r.get("paper").unwrap().as_str().unwrap(), "A4");
    assert_eq!(r.get("title").unwrap().as_str().unwrap(), "t");
    assert!(m.is_empty());
    let (r, m) = flex_design(&d, vec![], "A4", &papers, &vec![None, Some(nothing())]);
    assert_eq!(r.get("paper").unwrap().as_str().unwrap(), "A3");
    assert_eq!(m, vec!["note: content did not fit on A4; paper changed to A3"]);
}

#[test]
fn a_wire_takes_the_cheapest_way() {
    let e = Arena {
        a: Cell { x: 0, y: 0 },
        b: Cell { x: 10, y: 0 },
        da: 0,
        db: 1,
        boxes: vec![],
        joins: vec![],
        others: vec![],
    };
    let (path, joined) = e.find(false).unwrap();
    assert_eq!(path, vec![Pt { x: 0, y: 0 }, Pt { x: 1_270_000, y: 0 }]);
    assert_eq!(joined, None);
}
