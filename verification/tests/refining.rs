use sch_engine::emit::{Dir, Gallery, PinGeom, SchematicWriter, SymbolGeometry};
use sch_engine::floorplan::{Band, Cell, Item, ItemPin, Orient};
use sch_engine::geom::{BBox, Pt};
use sch_engine::plan_cost::Body;
use sch_engine::reemit::{Draft, Sig, Tap};
use sch_engine::refine::{
    apply_cells, cells_apart, count_stray, incidence, next_cells, refine_step,
    signal_anchor_centroid, start_refine, start_walk, walk_next, walk_step, Trial,
};
use sch_engine::route::RouteScene;
use sch_engine::tee::{add_pending, edge_start, find_local_tee, route_local_tee, terminals};

const GRID: i64 = 127_000;

/// A point in grid steps.
fn p(x: i64, y: i64) -> Pt {
    Pt { x: x * GRID, y: y * GRID }
}

fn cell(col: i32, row: i32) -> Cell {
    Cell { col, row, orient: Orient::Right }
}

fn empty_scene() -> RouteScene {
    RouteScene { solids: vec![], points: vec![], segments: vec![] }
}

#[test]
fn a_small_net_is_drawn_as_a_tee() {
    let terms = vec![(p(0, 0), None), (p(10, 4), None), (p(20, 2), None)];
    let mut w = SchematicWriter::new();
    let mut scene = empty_scene();
    assert!(route_local_tee(&mut w, "SIG", &terms, &mut scene));
    assert_eq!(w.wires.len(), 3);
    assert_eq!((w.wires[0].a, w.wires[0].b), (p(0, 2), p(20, 2)));
    assert_eq!(w.junctions.len(), 1);
    assert_eq!(w.junctions[0].at, p(10, 2));
    assert_eq!(scene.segments, vec![(p(0, 2), p(20, 2), "SIG".to_string())]);
}

#[test]
fn an_upright_tee_has_an_upright_trunk() {
    let terms = vec![(p(0, 0), None), (p(2, 10), None), (p(4, 20), None)];
    let t = find_local_tee(&terms, &vec![]).unwrap();
    assert!(!t.level);
    assert_eq!((t.from, t.to), (p(2, 0), p(2, 20)));
}

#[test]
fn no_tee_where_a_body_stands_or_the_net_is_wide() {
    let terms = vec![(p(0, 0), None), (p(20, 4), None)];
    let body = BBox { x0: 5 * GRID, y0: GRID, x1: 8 * GRID, y1: 2 * GRID };
    assert!(find_local_tee(&terms, &vec![body]).is_none());
    let wide = vec![(p(0, 0), None), (p(25, 0), None)];
    assert!(find_local_tee(&wide, &vec![]).is_none());
    let mut w = SchematicWriter::new();
    let mut scene = empty_scene();
    assert!(!route_local_tee(&mut w, "SIG", &wide, &mut scene));
    assert!(w.wires.is_empty() && scene.segments.is_empty());
}

#[test]
fn a_wire_starts_where_there_is_a_direction() {
    let v = vec![(p(0, 0), None), (p(5, 1), Some(Dir::North)), (p(0, 9), None)];
    assert_eq!(edge_start(&v, 0, 1), (p(5, 1), Dir::North, p(0, 0)));
    assert_eq!(edge_start(&v, 1, 0), (p(5, 1), Dir::North, p(0, 0)));
    assert_eq!(edge_start(&v, 0, 2), (p(0, 0), Dir::South, p(0, 9)));
}

fn draft() -> Draft {
    Draft {
        w: SchematicWriter::new(),
        signals: vec![
            Sig {
                net: "A".to_string(),
                refdes: "R1".to_string(),
                pin: "1".to_string(),
                at: p(1, 1),
                dir: Dir::East,
            },
            Sig {
                net: "B".to_string(),
                refdes: "R2".to_string(),
                pin: "1".to_string(),
                at: p(2, 2),
                dir: Dir::West,
            },
        ],
        taps: vec![Tap { net: "A".to_string(), tap: p(3, 3), label: p(4, 3), dir: Dir::East }],
        touched: vec![],
        used: vec![],
        driven: vec![],
        inputs: vec![],
        attach: vec![],
        emitted: vec![],
        counts: vec![],
        ports: 0,
        notes: vec![],
    }
}

#[test]
fn pending_terminals_are_points_of_the_scene() {
    let mut scene = empty_scene();
    scene.points.push((p(9, 9), "C".to_string()));
    add_pending(&mut scene, &draft());
    assert_eq!(
        scene.points,
        vec![
            (p(9, 9), "C".to_string()),
            (p(1, 1), "A".to_string()),
            (p(2, 2), "B".to_string()),
            (p(3, 3), "A".to_string()),
        ]
    );
    assert_eq!(terminals(&draft(), "A"), vec![(p(1, 1), Some(Dir::East)), (p(3, 3), None)]);
}

#[test]
fn refining_keeps_only_what_is_cheaper() {
    let score = |v: &[Cell]| (v[0].col - 2).unsigned_abs() as u128 * 20_000_000;
    let cells = vec![cell(0, 0), cell(3, 0)];
    let first = score(&cells);
    let mut s = start_refine(cells, &vec![2, 4], first);
    let mut last = s.best;
    while let Some(v) = next_cells(&s) {
        let c = score(&v);
        s = refine_step(s, Some(c));
        assert!(s.best <= last);
        last = s.best;
    }
    assert_eq!(s.trial, Trial::Done);
    assert_eq!(s.cells, vec![cell(2, 0), cell(3, 0)]);
    assert_eq!(s.best, 20_000_000);
}

#[test]
fn refining_leaves_large_parts_and_refused_trials() {
    let s = start_refine(vec![cell(0, 0)], &vec![3], 7);
    assert!(next_cells(&s).is_none());
    let mut s = start_refine(vec![cell(0, 0), cell(1, 0)], &vec![2, 2], 1_000_000_000);
    let mut tried: usize = 0;
    while next_cells(&s).is_some() {
        s = refine_step(s, None);
        tried += 1;
    }
    assert_eq!(tried, 9);
    assert_eq!(s.cells, vec![cell(0, 0), cell(1, 0)]);
}

#[test]
fn two_parts_in_one_cell_are_not_apart() {
    assert!(cells_apart(&vec![cell(0, 0), cell(0, 1)]));
    assert!(!cells_apart(&vec![cell(0, 0), cell(4, 1), cell(0, 0)]));
}

fn pin(number: &str, x: i64, y: i64) -> PinGeom {
    PinGeom { number: number.to_string(), name: "~".to_string(), at: p(x, y), angle: 0 }
}

fn chip() -> SymbolGeometry {
    SymbolGeometry {
        lib_id: "X:U".to_string(),
        raw_definition: "(symbol \"X:U\")".to_string(),
        width: 2 * GRID,
        height: 2 * GRID,
        pins: vec![pin("1", -4, 0), pin("2", 4, 0), pin("3", 0, 4)],
    }
}

fn small() -> SymbolGeometry {
    SymbolGeometry {
        lib_id: "X:R".to_string(),
        raw_definition: "(symbol \"X:R\")".to_string(),
        width: 2 * GRID,
        height: 2 * GRID,
        pins: vec![pin("1", 0, 2), pin("2", 0, -2)],
    }
}

fn item(refdes: &str, part: &str, nets: &[(&str, &str)], at: Pt) -> Item {
    Item {
        refdes: refdes.to_string(),
        part: part.to_string(),
        pins: nets
            .iter()
            .map(|(n, net)| ItemPin {
                number: n.to_string(),
                name: "~".to_string(),
                net: Some(net.to_string()),
            })
            .collect(),
        at,
        angle: 0,
    }
}

#[test]
fn cells_put_parts_in_the_middle_of_their_tracks() {
    let mut items = vec![item("U1", "X:U", &[], p(9, 9)), item("U2", "X:U", &[], p(9, 9))];
    apply_cells(&mut items, &vec![chip(), chip()], &vec![cell(0, 0), cell(1, 0)]);
    assert_eq!(items[0].at, p(1, 1));
    assert_eq!(items[1].at, p(8, 1));
    assert_eq!(items[1].angle, 0);
    assert_eq!(items[1].refdes, "U2");
}

fn plan() -> (SchematicWriter, Gallery, Vec<Item>, Vec<SymbolGeometry>) {
    let g = Gallery { symbols: vec![chip(), small()] };
    let mut w = SchematicWriter::new();
    w.add_symbol(&g, "X:U", "U1", "v", p(20, 20), 0).unwrap();
    w.add_symbol(&g, "X:R", "R1", "v", p(40, 20), 0).unwrap();
    let items = vec![
        item("U1", "X:U", &[("1", "VCC"), ("2", "OUT"), ("3", "IN")], p(20, 20)),
        item("R1", "X:R", &[("1", "OUT"), ("2", "VCC")], p(40, 20)),
    ];
    (w, g, items, vec![chip(), small()])
}

#[test]
fn nets_are_listed_by_name_with_their_pins() {
    let (_, _, items, _) = plan();
    let inc = incidence(&items);
    let names: Vec<&str> = inc.iter().map(|e| e.0.as_str()).collect();
    assert_eq!(names, vec!["IN", "OUT", "VCC"]);
    assert_eq!(inc[1].1, vec![(0, "2".to_string()), (1, "1".to_string())]);
}

#[test]
fn a_small_part_belongs_by_the_signal_pin_it_serves() {
    let (w, g, items, geoms) = plan();
    let inc = incidence(&items);
    let rails = vec![("VCC".to_string(), Band::Top)];
    let out = w.pin_dirs(&g, "U1", "2").unwrap()[0].at;
    let got = signal_anchor_centroid(&w, &g, &items, &geoms, &inc, &rails, 1, false);
    assert_eq!(got, Some(out));
    let stray = (items[1].at.x - out.x).unsigned_abs() + (items[1].at.y - out.y).unsigned_abs();
    assert_eq!(count_stray(&w, &g, &items, &geoms, &inc, &rails), stray as u128);
    let all = vec![("OUT".to_string(), Band::Top), ("VCC".to_string(), Band::Top)];
    assert!(signal_anchor_centroid(&w, &g, &items, &geoms, &inc, &all, 1, false).is_none());
    let vcc = w.pin_dirs(&g, "U1", "1").unwrap()[0].at;
    let mid = Pt { x: (out.x + vcc.x) / 2, y: (out.y + vcc.y) / 2 };
    let got = signal_anchor_centroid(&w, &g, &items, &geoms, &inc, &all, 1, true);
    assert_eq!(got, Some(mid));
}

#[test]
fn a_part_walks_to_the_line_of_its_pin() {
    let body = |at: Pt| Body { at, width: 0, height: 0, quarter: false };
    let bodies = vec![body(p(0, 0)), body(p(50, 50))];
    let mut k = start_walk(p(0, 0), true, p(3, 7), 100_000_000).unwrap();
    let mut cost = 100_000_000u128;
    let mut steps: usize = 0;
    while let Some(at) = walk_next(&k, &bodies, 0) {
        cost -= 10_000_000;
        k = walk_step(k, at, cost);
        steps += 1;
    }
    assert_eq!(steps, 3);
    assert_eq!(k.best_at, p(3, 0));
    assert_eq!(k.best, 70_000_000);
    assert!(start_walk(p(3, 0), true, p(3, 7), 5).is_none());
}

#[test]
fn a_walk_stops_at_another_part_and_keeps_the_cheapest_place() {
    let body = |at: Pt| Body { at, width: 0, height: 0, quarter: false };
    let bodies = vec![body(p(0, 0)), body(p(5, 0))];
    let mut k = start_walk(p(0, 0), true, p(10, 0), 100_000_000).unwrap();
    let mut steps: usize = 0;
    while let Some(at) = walk_next(&k, &bodies, 0) {
        k = walk_step(k, at, 98_000_000);
        steps += 1;
    }
    assert!((1..5).contains(&steps));
    assert_eq!(k.best_at, p(0, 0));
    assert_eq!(k.best, 100_000_000);
}
