use sch_engine::compile::{compile_design, Shelf};
use sch_engine::edit::apply_patch;
use sch_engine::extract::parse;
use sch_engine::flow::added_circuit;
use sch_engine::geo::{fill, Geo};
use sch_engine::ids::stable_uuid;
use sch_engine::json::Json;
use sch_engine::model_json::{design_from_json, normalize_json};
use sch_engine::order_map::OrderMap;
use sch_engine::report::{netlist_map, netlist_mismatch};
use sch_engine::sexp::is_plain_float;
use sch_engine::symlib::{Pin, SymbolIndex, SymbolInfo};
use std::sync::Arc;

fn s(t: &str) -> Json {
    Json::Str(t.to_string())
}

fn obj(v: Vec<(&str, Json)>) -> Json {
    Json::Obj(v.into_iter().map(|(k, x)| (k.to_string(), x)).collect())
}

fn no_symbols() -> SymbolIndex {
    SymbolIndex { symbols: vec![] }
}

fn shelf() -> Shelf {
    Shelf {
        own: OrderMap { keys: vec![], vals: vec![] },
        stock: vec![],
        stock_infos: OrderMap { keys: vec![], vals: vec![] },
        index: no_symbols(),
    }
}

const SHEET: &str = r#"(kicad_sch (version 20250114) (generator "eeschema")
  (uuid "11111111-2222-3333-4444-555555555555") (paper "A3")
  (title_block (title "demo"))
  (lib_symbols)
  (no_connect (at 7.62 7.62) (uuid "n-1"))
  (wire (pts (xy 10.16 20.32) (xy 30.48 20.32)) (stroke (width 0) (type default)) (uuid "w-1"))
  (wire (pts (xy 30.48 20.32) (xy 30.48 50.8)) (stroke (width 0) (type default)) (uuid "w-2"))
  (rectangle (start 5.08 5.08) (end 50.8 60.96) (uuid "r-1"))
  (text "say \"hi\"" (at 12.7 5.08 90) (effects (font (size 2.54 2.54) (bold yes))) (uuid "t-1"))
  (label "SIG" (at 10.16 20.32 180) (uuid "l-1"))
  (global_label "OUT" (shape output) (at 30.48 50.8 0) (uuid "l-2"))
  (bus_alias "B" (members "a" "b"))
)"#;

#[test]
fn a_compiled_sheet_reads_back() {
    let own = OrderMap { keys: vec![], vals: vec![] };
    let first = parse(SHEET, &own).unwrap();
    assert_eq!(first.wire_uuids, vec!["w-1", "w-2"]);
    let again = parse(SHEET, &own).unwrap();
    let (text, _) = compile_design(again, shelf());
    let read = parse(&text, &own).unwrap();
    assert_eq!(read.uuid, first.uuid);
    assert_eq!(read.paper, "A3");
    assert_eq!(read.title, "demo");
    assert_eq!(read.wires, first.wires);
    assert_eq!(read.wire_uuids, first.wire_uuids);
    assert_eq!(read.nc, first.nc);
    assert_eq!(read.rects[0].start, first.rects[0].start);
    assert_eq!(read.rects[0].end, first.rects[0].end);
    assert_eq!(read.rects[0].uuid, "r-1");
    assert_eq!(read.texts[0].text, "say \"hi\"");
    assert_eq!(read.texts[0].size, first.texts[0].size);
    assert!(read.texts[0].bold);
    assert_eq!(read.texts[0].uuid, "t-1");
    let labels: Vec<(&str, &str, &str, &str)> = read
        .labels
        .iter()
        .map(|l| (l.text.as_str(), l.kind.as_str(), l.shape.as_str(), l.uuid.as_str()))
        .collect();
    assert_eq!(
        labels,
        vec![("SIG", "local", "input", "l-1"), ("OUT", "global", "output", "l-2")]
    );
    assert_eq!(read.labels[0].rot, 180);
    assert_eq!(read.extra_nodes.len(), 1);
    assert_eq!(read.extra_nodes[0].tag(), "bus_alias");
}

#[test]
fn made_up_identifiers_have_the_usual_length() {
    let own = OrderMap { keys: vec![], vals: vec![] };
    let mut d = parse(SHEET, &own).unwrap();
    d.wire_uuids = vec![String::new(), "w-2".to_string()];
    let (text, _) = compile_design(d, shelf());
    let read = parse(&text, &own).unwrap();
    assert_eq!(read.wire_uuids[0].len(), 36);
    assert_eq!(read.wire_uuids[1], "w-2");
}

#[test]
fn numbers_with_an_exponent_are_plain() {
    for t in ["1e5", "1.5e-3", "-2.", "5", "-.5", "1.5E3", "1e", "e5", ""] {
        let want = matches!(t, "1e5" | "1.5e-3" | "5" | "-.5");
        assert_eq!(is_plain_float(t), want, "{t}");
    }
}

#[test]
fn long_words_fill_up_a_line() {
    assert_eq!(fill("aa bbbbbbbb", 5), "aa bb\nbbbbb\nb");
    assert_eq!(fill("aa bb cc", 5), "aa bb\ncc");
}

#[test]
fn kind_and_key_do_not_run_together() {
    assert_ne!(stable_uuid("a", "b:c"), stable_uuid("a:b", "c"));
    assert_ne!(stable_uuid("a\\", "b"), stable_uuid("a", "\\b"));
}

fn one_symbol() -> SymbolIndex {
    let pin = Pin {
        number: "1".to_string(),
        name: "~".to_string(),
        x: 0,
        y: 0,
        angle: 0,
        hidden: false,
        etype: "passive".to_string(),
    };
    let info = SymbolInfo {
        lib_id: "X:Y".to_string(),
        ref_prefix: "R".to_string(),
        power: false,
        units: vec![],
        props: vec![],
        pins: vec![pin],
        value: String::new(),
        footprint: String::new(),
        datasheet: String::new(),
        description: String::new(),
    };
    SymbolIndex { symbols: vec![Arc::new(info)] }
}

fn meant() -> Json {
    let part = |id: &str| {
        obj(vec![("id", s(id)), ("lib", s("X:Y")), ("pins", obj(vec![("1", s("A"))]))])
    };
    obj(vec![("parts", Json::Arr(vec![part("R1"), part("R2")]))])
}

#[test]
fn a_pin_that_is_in_no_net_is_a_mismatch() {
    let whole = vec![("N1".to_string(), vec!["R1.1".to_string(), "R2.1".to_string()])];
    assert!(netlist_mismatch(&meant(), &one_symbol(), &whole).is_empty());
    let lost = vec![("N1".to_string(), vec!["R1.1".to_string()])];
    let found = netlist_mismatch(&meant(), &one_symbol(), &lost);
    assert_eq!(found.len(), 1);
    assert!(found[0].contains("net A is split into 2 unconnected pieces"), "{found:?}");
    assert_eq!(netlist_mismatch(&meant(), &one_symbol(), &vec![]).len(), 1);
}

#[test]
fn net_lists_are_sorted() {
    let nets = vec![
        ("B".to_string(), vec!["R2.1".to_string(), "R1.1".to_string(), "R2.1".to_string()]),
        ("A".to_string(), vec!["U1.3".to_string()]),
    ];
    let got = netlist_map(&nets);
    assert_eq!(got[0], ("A".to_string(), vec!["U1.3".to_string()]));
    assert_eq!(got[1], ("B".to_string(), vec!["R1.1".to_string(), "R2.1".to_string()]));
}

#[test]
fn units_of_a_symbol_keep_their_own_data() {
    let unit = |n: i64, uuid: &str| {
        format!(
            "(symbol (lib_id \"X:Q\") (at 0 {n} 0) (unit {n}) (uuid \"{uuid}\") \
             (property \"Reference\" \"U1\" (at 0 0 0)))"
        )
    };
    let text = format!("(kicad_sch (paper \"A4\") {} {})", unit(1, "one"), unit(2, "two"));
    let base = parse(&text, &OrderMap { keys: vec![], vals: vec![] }).unwrap();
    let part = |n: i64| {
        obj(vec![
            ("id", s("U1")),
            ("lib", s("X:Q")),
            ("unit", Json::Int(n)),
            ("at", Json::Arr(vec![Json::Int(4), Json::Int(4)])),
        ])
    };
    let d = design_from_json(
        &obj(vec![("parts", Json::Arr(vec![part(2), part(1)]))]),
        Some(&base),
    );
    assert_eq!(d.parts[0].uuid, "two");
    assert_eq!(d.parts[1].uuid, "one");
}

#[test]
fn an_empty_patch_changes_nothing() {
    let d = parse(SHEET, &OrderMap { keys: vec![], vals: vec![] }).unwrap();
    let tagged = d.to_json(true);
    let (out, errs) = apply_patch(&tagged, &obj(vec![]));
    assert!(errs.is_empty());
    assert_eq!(format!("{out:?}"), format!("{tagged:?}"));
}

#[test]
fn normalizing_takes_the_tags_away() {
    let d = parse(SHEET, &OrderMap { keys: vec![], vals: vec![] }).unwrap();
    let plain = d.to_json(false);
    let same = normalize_json(&plain);
    assert_eq!(format!("{same:?}"), format!("{plain:?}"));
    let got = normalize_json(&d.to_json(true));
    for k in ["wires", "nc", "parts"] {
        assert_eq!(format!("{:?}", got.get(k)), format!("{:?}", plain.get(k)));
    }
    let labels = got.get("labels").unwrap().as_array().unwrap();
    assert_eq!(labels.len(), 2);
    assert!(labels.iter().all(|l| l.get("id").is_none()));
    assert_eq!(labels[1].get("text").unwrap().as_str().unwrap(), "OUT");
}

fn nothing() -> Geo {
    Geo {
        parts: vec![],
        power: vec![],
        wires: vec![],
        labels: vec![],
        nc: vec![],
        texts: vec![],
        rects: vec![],
        boxes: vec![],
    }
}

#[test]
fn a_circuit_is_added_to_the_first_paper_that_takes_it() {
    let raw = obj(vec![("title", s("t")), ("paper", s("A4"))]);
    let shown = format!("{raw:?}");
    let (r, m) = added_circuit(&raw, false, vec![], "A4", &vec![]);
    assert_eq!(format!("{r:?}"), shown);
    assert!(m[0].contains("needs a \"layout\""));
    let (r, m) = added_circuit(&raw, true, vec!["bad".to_string()], "A4", &vec![]);
    assert_eq!(format!("{r:?}"), shown);
    assert_eq!(m, vec!["bad".to_string()]);
    let (r, m) = added_circuit(&raw, true, vec![], "A4", &vec![None, None, None]);
    assert_eq!(format!("{r:?}"), shown);
    assert!(m[0].contains("no free space"));
    let notes = vec!["note: x".to_string()];
    let (r, m) = added_circuit(&raw, true, notes, "A4", &vec![None, Some(nothing())]);
    assert_eq!(r.get("paper").unwrap().as_str().unwrap(), "A3");
    assert_eq!(m.len(), 2);
    assert!(m[1].contains("paper enlarged to A3"));
}
