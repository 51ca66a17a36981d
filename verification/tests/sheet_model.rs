use sch_engine::edit::apply_patch;
use sch_engine::extract::parse;
use sch_engine::geom::{Mirror, GRID};
use sch_engine::json::Json;
use sch_engine::model_json::{design_from_json, gu, mm, num, round_py, snap};
use sch_engine::order_map::OrderMap;
use sch_engine::sexp::{dumps, loads, Sexp};
use sch_engine::symlib::rot_point;

fn s(t: &str) -> Json {
    Json::Str(t.to_string())
}

fn obj(v: Vec<(&str, Json)>) -> Json {
    Json::Obj(v.into_iter().map(|(k, x)| (k.to_string(), x)).collect())
}

fn arr(v: Vec<Json>) -> Json {
    Json::Arr(v)
}

fn point(x: i64, y: i64) -> Json {
    arr(vec![Json::Int(x), Json::Int(y)])
}

#[test]
fn units() {
    assert_eq!(mm(3_000_000), 381_000);
    assert_eq!(gu(381_000), 3_000);
    assert_eq!(snap(390_000, GRID), 381_000);
    assert_eq!(num(3_000_000).to_text(), "3");
}

#[test]
fn round_py_takes_ties_to_even() {
    assert_eq!(round_py(500_000), 0);
    assert_eq!(round_py(1_500_000), 2);
    assert_eq!(round_py(2_500_000), 2);
    assert_eq!(round_py(-500_000), 0);
    assert_eq!(round_py(-1_500_000), -2);
    assert_eq!(round_py(3_200_000), 3);
}

#[test]
fn rotations() {
    assert_eq!(rot_point(254_000, 0, 0, Mirror::Plain), (254_000, 0));
    assert_eq!(rot_point(254_000, 0, 90, Mirror::Plain), (0, -254_000));
    assert_eq!(rot_point(254_000, 0, 180, Mirror::Plain), (-254_000, 0));
    assert_eq!(rot_point(254_000, 0, 270, Mirror::Plain), (0, 254_000));
    assert_eq!(rot_point(254_000, 100_000, 0, Mirror::Y), (-254_000, -100_000));
    assert_eq!(rot_point(254_000, 100_000, 0, Mirror::X), (254_000, 100_000));
}

fn base() -> Json {
    obj(vec![
        (
            "parts",
            arr(vec![obj(vec![("id", s("R1")), ("lib", s("Device:R")), ("at", point(0, 0))])]),
        ),
        (
            "wires",
            arr(vec![obj(vec![("id", s("w1")), ("pts", arr(vec![point(0, 0), point(1, 0)]))])]),
        ),
        ("labels", arr(vec![])),
        ("power", arr(vec![])),
        ("nc", arr(vec![])),
        ("texts", arr(vec![])),
        ("rects", arr(vec![])),
    ])
}

#[test]
fn patch_add_and_remove() {
    let patch = obj(vec![
        ("remove", arr(vec![s("w1"), s("zz")])),
        ("add", obj(vec![("wires", arr(vec![arr(vec![point(2, 2), point(3, 2)])]))])),
    ]);
    let (out, errs) = apply_patch(&base(), &patch);
    let wires = out.get("wires").unwrap().as_array().unwrap();
    assert_eq!(wires.len(), 1);
    assert_eq!(wires[0].get("id").unwrap().as_str().unwrap(), "w1");
    assert!(errs.iter().any(|e| e.contains("'zz'")));
}

#[test]
fn designs_are_read_from_json() {
    let d = design_from_json(&base(), None);
    assert_eq!(d.parts.len(), 1);
    assert_eq!(d.parts[0].id, "R1");
    assert_eq!(d.wires[0][1].x, GRID);
    assert_eq!(d.paper, "A4");
}

#[test]
fn roundtrip() {
    let t = "(kicad_sch (version 20250114) (at 1.27 -2.54 90) (name \"a \\\"b\\\"\"))";
    let n = loads(t).unwrap();
    assert_eq!(n.tag(), "kicad_sch");
    assert!(matches!(
        n.child("version").unwrap().as_list().unwrap()[1],
        Sexp::Int(20250114)
    ));
    let at = n.child("at").unwrap().as_list().unwrap();
    assert_eq!(at[1].number(), Some(1_270_000));
    assert_eq!(at[2].number(), Some(-2_540_000));
    match &n.child("name").unwrap().as_list().unwrap()[1] {
        Sexp::Str(v) => assert_eq!(v, "a \"b\""),
        other => panic!("{other:?}"),
    }
    assert!(dumps(&n, 0).contains("\\\"b\\\""));
}

#[test]
fn symbols_stay_symbols() {
    let n = loads("(pin passive line 1e 2x)").unwrap();
    assert_eq!(
        n.atoms().iter().map(|a| a.text()).collect::<Vec<_>>(),
        ["passive", "line", "1e", "2x"]
    );
}

#[test]
fn a_text_without_an_expression_is_refused() {
    assert!(loads("").is_none());
    assert!(parse("", &OrderMap::new()).is_none());
}

#[test]
fn custom_properties_keep_their_order() {
    let sheet = "(kicad_sch (symbol (lib_id \"X:Y\") (at 0 0 0) (unit 1) \
                 (property \"Reference\" \"U1\" (at 0 0 0)) \
                 (property \"MPN\" \"a\" (at 0 0 0)) \
                 (property \"Manufacturer\" \"b\" (at 0 0 0)) \
                 (property \"Availability\" \"c\" (at 0 0 0))))";
    let des = parse(sheet, &OrderMap::new()).unwrap();
    let names: Vec<&String> = des.parts[0].fields.iter().map(|f| &f.0).collect();
    assert_eq!(names, ["MPN", "Manufacturer", "Availability"]);
}

#[test]
fn maps_keep_the_order_of_insertion() {
    let mut m: OrderMap<i64> = OrderMap::new();
    m.insert("b", 1);
    m.insert("a", 2);
    m.insert("b", 3);
    assert_eq!(m.len(), 2);
    assert_eq!(m.keys(), &vec!["b".to_string(), "a".to_string()]);
    assert_eq!(m.get("b"), Some(&3));
    assert_eq!(m.get("c"), None);
}
