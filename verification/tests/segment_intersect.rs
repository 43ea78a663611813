use concave_hull::{edges_intersect, rank32, Edge};
use parry2d::math::Point as ParryPoint;

type Point = ParryPoint<f32>;

/// Points in a numpad grid, in numpad order
///
/// 7 8 9
/// 4 5 6
/// 1 2 3
/// 0
const POINTS: [Point; 10] = [
    Point::new(0., 0.),
    Point::new(0., 1.),
    Point::new(1., 1.),
    Point::new(2., 1.),
    Point::new(0., 2.),
    Point::new(1., 2.),
    Point::new(2., 2.),
    Point::new(0., 3.),
    Point::new(1., 3.),
    Point::new(2., 3.),
];

fn edge(i: usize, j: usize, points: &[Point]) -> Edge {
    let norm = (points[j] - points[i]).norm_squared();
    Edge::new(i, j, rank32(norm.to_bits()))
}

fn segments_cross(a: Point, b: Point, c: Point, d: Point) -> bool {
    let t_num = (a.x - c.x) * (c.y - d.y) - (a.y - c.y) * (c.x - d.x);
    let t_denom = (a.x - b.x) * (c.y - d.y) - (a.y - b.y) * (c.x - d.x);
    let u_num = -((a.x - b.x) * (a.y - c.y) - (a.y - b.y) * (a.x - c.x));
    let u_denom = (a.x - b.x) * (c.y - d.y) - (a.y - b.y) * (c.x - d.x);
    t_denom != 0.
        && t_num * t_denom >= 0.
        && t_num.abs() <= t_denom.abs()
        && u_denom != 0.
        && u_num * u_denom >= 0.
        && u_num.abs() <= u_denom.abs()
}

fn intersect(e1: &Edge, e2: &Edge) -> bool {
    let crossing = segments_cross(POINTS[e1.i], POINTS[e1.j], POINTS[e2.i], POINTS[e2.j]);
    edges_intersect(e1, e2, crossing)
}

#[test]
fn duplicate_edge() {
    let e1 = edge(0, 1, &POINTS);
    let e2 = edge(0, 1, &POINTS);

    assert!(intersect(&e1, &e2));
}

#[test]
fn connected_edges_e1_first() {
    let e1 = edge(0, 1, &POINTS);
    let e2 = edge(1, 4, &POINTS);

    assert!(!intersect(&e1, &e2));
}

#[test]
fn connected_edges_e2_first() {
    let e1 = edge(1, 4, &POINTS);
    let e2 = edge(0, 1, &POINTS);

    assert!(!intersect(&e1, &e2));
}

#[test]
fn intersection_plus() {
    let e1 = edge(2, 8, &POINTS);
    let e2 = edge(4, 6, &POINTS);

    assert!(intersect(&e1, &e2));
    assert!(intersect(&e2, &e1));
}

#[test]
fn intersection_x() {
    let e1 = edge(1, 9, &POINTS);
    let e2 = edge(3, 7, &POINTS);

    assert!(intersect(&e1, &e2));
    assert!(intersect(&e2, &e1));
}

#[test]
fn intersection_t_away() {
    let e1 = edge(1, 7, &POINTS);
    let e2 = edge(4, 6, &POINTS);

    assert!(intersect(&e1, &e2));
    assert!(intersect(&e2, &e1));
}

#[test]
fn intersection_t_towards() {
    let e1 = edge(1, 7, &POINTS);
    let e2 = edge(6, 4, &POINTS);

    assert!(intersect(&e1, &e2));
    assert!(intersect(&e2, &e1));
}

#[test]
fn parallel_horizontal() {
    let e1 = edge(1, 3, &POINTS);
    let e2 = edge(4, 6, &POINTS);

    assert!(!intersect(&e1, &e2));
    assert!(!intersect(&e2, &e1));
}

#[test]
fn parallel_vertical() {
    let e1 = edge(1, 4, &POINTS);
    let e2 = edge(3, 9, &POINTS);

    assert!(!intersect(&e1, &e2));
    assert!(!intersect(&e2, &e1));
}

#[test]
fn duplicates_intersect_whatever_the_segments_do() {
    let e1 = Edge::new(0, 1, 7);
    let e2 = Edge::new(0, 1, 9);

    assert!(edges_intersect(&e1, &e2, false));
    assert!(edges_intersect(&e1, &e2, true));
}

#[test]
fn chained_edges_never_intersect() {
    let e1 = Edge::new(0, 1, 1);
    let e2 = Edge::new(1, 4, 1);

    assert!(!edges_intersect(&e1, &e2, true));
    assert!(!edges_intersect(&e2, &e1, true));
    assert!(!edges_intersect(&e1, &e2, false));
}

#[test]
fn mirrored_edges_count_as_chained() {
    let e1 = Edge::new(2, 5, 1);
    let e2 = Edge::new(5, 2, 1);

    assert!(!edges_intersect(&e1, &e2, true));
}

#[test]
fn other_pairs_follow_the_segments() {
    let e1 = Edge::new(0, 1, 1);
    let e2 = Edge::new(2, 3, 1);
    let fan_out = Edge::new(0, 3, 1);
    let fan_in = Edge::new(2, 1, 1);

    assert!(edges_intersect(&e1, &e2, true));
    assert!(!edges_intersect(&e1, &e2, false));
    assert!(edges_intersect(&e1, &fan_out, true));
    assert!(edges_intersect(&e1, &fan_in, true));
}
