use sch_engine::emit::Dir;
use sch_engine::geom::{BBox, Pt};
use sch_engine::route::{elbow, path_ok, simplify, RouteScene};

/// A point in hundredths of a millimetre.
fn at(x: i64, y: i64) -> Pt {
    Pt { x: x * 1000, y: y * 1000 }
}

fn assert_axis_aligned(path: &[Pt]) {
    for w in path.windows(2) {
        assert!(w[0].x == w[1].x || w[0].y == w[1].y, "segment not axis-aligned: {w:?}");
    }
}

#[test]
fn straight_east() {
    let p = elbow(at(0, 0), Dir::East, at(1000, 0));
    assert_eq!(p, vec![at(0, 0), at(1000, 0)]);
}

#[test]
fn l_shape_when_target_is_ahead_and_offset() {
    let p = elbow(at(0, 0), Dir::East, at(1000, -500));
    assert_eq!(p, vec![at(0, 0), at(1000, 0), at(1000, -500)]);
    assert_axis_aligned(&p);
}

#[test]
fn z_shape_when_target_is_behind() {
    let p = elbow(at(0, 0), Dir::East, at(-1000, -500));
    assert_eq!(p, vec![at(0, 0), at(254, 0), at(254, -500), at(-1000, -500)]);
    assert_axis_aligned(&p);
}

fn scene(
    solids: Vec<[i64; 4]>,
    points: Vec<(Pt, &str)>,
    segments: Vec<(Pt, Pt, &str)>,
) -> RouteScene {
    RouteScene {
        solids: solids
            .into_iter()
            .map(|s| BBox {
                x0: s[0] * 1000,
                y0: s[1] * 1000,
                x1: s[2] * 1000,
                y1: s[3] * 1000,
            })
            .collect(),
        points: points.into_iter().map(|(p, n)| (p, n.to_string())).collect(),
        segments: segments.into_iter().map(|(a, b, n)| (a, b, n.to_string())).collect(),
    }
}

#[test]
fn path_through_solid_is_rejected() {
    let s = scene(vec![[400, -200, 600, 200]], vec![], vec![]);
    let p = vec![at(0, 0), at(1000, 0)];
    assert!(!path_ok(&p, "A", &s));
    let p = vec![at(0, -200), at(1000, -200)];
    assert!(path_ok(&p, "A", &s));
}

#[test]
fn path_through_foreign_point_is_rejected() {
    let s = scene(vec![], vec![(at(500, 0), "B"), (at(700, 0), "A")], vec![]);
    let p = vec![at(0, 0), at(1000, 0)];
    assert!(!path_ok(&p, "A", &s), "foreign point on the wire merges nets");
    let s2 = scene(vec![], vec![(at(700, 0), "A")], vec![]);
    assert!(path_ok(&p, "A", &s2), "own-net point is a deliberate join");
}

#[test]
fn collinear_foreign_overlap_rejected_perpendicular_crossing_ok() {
    let s = scene(vec![], vec![], vec![(at(300, 0), at(1200, 0), "B")]);
    let p = vec![at(0, 0), at(1000, 0)];
    assert!(!path_ok(&p, "A", &s));
    let s = scene(vec![], vec![], vec![(at(500, -400), at(500, 400), "B")]);
    assert!(path_ok(&p, "A", &s));
    let s = scene(vec![], vec![], vec![(at(500, -400), at(500, 0), "B")]);
    assert!(!path_ok(&p, "A", &s));
    let p2 = vec![at(0, 0), at(500, 0)];
    let s = scene(vec![], vec![], vec![(at(500, -400), at(500, 400), "B")]);
    assert!(!path_ok(&p2, "A", &s));
    let s = scene(vec![], vec![], vec![(at(500, -400), at(500, 0), "A")]);
    assert!(path_ok(&p, "A", &s));
}

#[test]
fn vertical_lead_straight_and_l() {
    let p = elbow(at(0, 1000), Dir::North, at(0, 0));
    assert_eq!(p, vec![at(0, 1000), at(0, 0)]);
    let p = elbow(at(0, 1000), Dir::North, at(600, 200));
    assert_eq!(p, vec![at(0, 1000), at(0, 200), at(600, 200)]);
    assert_axis_aligned(&p);
}

#[test]
fn simplifying_drops_repeats_and_points_in_line() {
    let p = simplify(&vec![at(0, 0), at(0, 0), at(100, 0), at(300, 0), at(300, 200)]);
    assert_eq!(p, vec![at(0, 0), at(300, 0), at(300, 200)]);
}
