use sch_engine::geo::{fill, is_gnd, paper, power_rot, snap_even, Geo};
use sch_engine::geom::{round_quotient, BBox, Pt, GRID};
use sch_engine::pack::{pack_blocks_ordered, Area};

#[test]
fn gnd_names() {
    assert!(is_gnd("GND"));
    assert!(is_gnd("AGND"));
    assert!(is_gnd("VSS"));
    assert!(!is_gnd("+3V3"));
}

#[test]
fn power_rotations() {
    assert_eq!(power_rot("+3V3", (0, -1)), 0);
    assert_eq!(power_rot("GND", (0, -1)), 180);
    assert_eq!(power_rot("GND", (0, 1)), 0);
    assert_eq!(power_rot("+3V3", (-1, 0)), 270);
}

#[test]
fn snap_even_is_bankers_like_python() {
    for (v, want) in [(1, 0), (3, 4), (5, 4), (7, 8), (-1, 0), (-3, -4), (2, 2)] {
        assert_eq!(snap_even(v * GRID), want * GRID, "snap_even({v})");
    }
}

#[test]
fn geo_translate_and_bbox() {
    let mut g = Geo::new();
    g.add_label("NET", Pt { x: 0, y: 0 }, 0, "local", "input");
    let b0 = g.bbox();
    g.translate(2 * GRID, 3 * GRID);
    let b1 = g.bbox();
    assert_eq!(b1.x0 - b0.x0, 2 * GRID);
    assert_eq!(b1.y0 - b0.y0, 3 * GRID);
}

#[test]
fn wrap_matches_textwrap() {
    assert_eq!(fill("aaa bbb ccc", 7), "aaa bbb\nccc");
}

#[test]
fn py_round_is_half_to_even() {
    assert_eq!(round_quotient(25, 10), 2);
    assert_eq!(round_quotient(35, 10), 4);
    assert_eq!(round_quotient(-25, 10), -2);
    assert_eq!(round_quotient(24, 10), 2);
    assert_eq!(round_quotient(26, 10), 3);
}

fn boxed(w: i64, h: i64) -> Geo {
    let mut g = Geo::new();
    g.boxes.push(BBox { x0: 0, y0: 0, x1: w * GRID, y1: h * GRID });
    g
}

fn sheet() -> Area {
    let p = paper("A4").unwrap();
    Area { x0: 14 * GRID, y0: 14 * GRID, xmax: p.xmax, ymax: p.ymax, tbx: p.tbx, tby: p.tby }
}

#[test]
fn packed_blocks_share_no_area() {
    let geos = vec![boxed(60, 40), boxed(50, 30), boxed(70, 20)];
    let got = pack_blocks_ordered(&geos, &vec![0, 1, 2], &sheet(), &vec![]).unwrap();
    assert_eq!(got.moves.len(), 3);
    let b = &got.sheet.boxes;
    for i in 0..b.len() {
        for j in (i + 1)..b.len() {
            let apart = b[i].x1 <= b[j].x0
                || b[j].x1 <= b[i].x0
                || b[i].y1 <= b[j].y0
                || b[j].y1 <= b[i].y0;
            assert!(apart, "{:?} {:?}", b[i], b[j]);
        }
    }
    assert_eq!(b[0].x0, 14 * GRID);
    assert_eq!(b[0].y0, 14 * GRID);
}

#[test]
fn a_block_that_is_too_large_is_not_packed() {
    let geos = vec![boxed(900, 40)];
    assert!(pack_blocks_ordered(&geos, &vec![0], &sheet(), &vec![]).is_none());
}

#[test]
fn packing_keeps_clear_of_obstacles() {
    let geos = vec![boxed(20, 20)];
    let there = BBox { x0: 14 * GRID, y0: 14 * GRID, x1: 40 * GRID, y1: 40 * GRID };
    let got = pack_blocks_ordered(&geos, &vec![0], &sheet(), &vec![there]).unwrap();
    assert_eq!(got.sheet.boxes[0].x0, 48 * GRID);
    assert_eq!(got.sheet.boxes[0].y0, 14 * GRID);
}
