use concave_hull::{concave_hull, edges_intersect, rank32, Edge, Request};
use parry2d::math::Point as ParryPoint;
use parry2d::transformation::convex_hull_idx;

type Point = ParryPoint<f32>;

/// An integer that orders as the total order of the numbers does.
fn rank(x: f32) -> u64 {
    rank32(x.to_bits())
}

fn squared_length(points: &[Point], i: usize, j: usize) -> u64 {
    rank((points[j] - points[i]).norm_squared())
}

fn scores(points: &[Point], edge: &Edge) -> Vec<u64> {
    let a = points[edge.i];
    let b = points[edge.j];
    points
        .iter()
        .map(|p| {
            let e1 = p - a;
            let e2 = b - p;
            let e_v = b - a;
            rank(e_v.angle(&e1).max(e_v.angle(&e2)))
        })
        .collect()
}

fn segments_cross(a: Point, b: Point, c: Point, d: Point) -> bool {
    let t_num = (a.x - c.x) * (c.y - d.y) - (a.y - c.y) * (c.x - d.x);
    let t_denom = (a.x - b.x) * (c.y - d.y) - (a.y - b.y) * (c.x - d.x);
    let u_num = -((a.x - b.x) * (a.y - c.y) - (a.y - b.y) * (a.x - c.x));
    let u_denom = (a.x - b.x) * (c.y - d.y) - (a.y - b.y) * (c.x - d.x);
    t_denom != 0.
        && t_num * t_denom >= 0.
        && t_num.abs() <= t_denom.abs()
        && u_denom != 0.
        && u_num * u_denom >= 0.
        && u_num.abs() <= u_denom.abs()
}

fn ring_with_limit(points: &[Point], limit: u64) -> Vec<usize> {
    let mut state = concave_hull(points.len(), limit);
    loop {
        state = match state.request() {
            Request::Done => break,
            Request::Hull => {
                let indices = convex_hull_idx(points);
                let norms: Vec<u64> = (0..indices.len())
                    .map(|k| squared_length(points, indices[k], indices[(k + 1) % indices.len()]))
                    .collect();
                state.hull(&indices, &norms)
            }
            Request::Scores(edge) => state.scores(&scores(points, &edge)),
            Request::Crossings(edge, point) => {
                let edges = state.edges();
                let first: Vec<bool> = edges
                    .iter()
                    .map(|f| segments_cross(points[f.i], points[f.j], points[edge.i], points[point]))
                    .collect();
                let second: Vec<bool> = edges
                    .iter()
                    .map(|f| segments_cross(points[f.i], points[f.j], points[point], points[edge.j]))
                    .collect();
                state.crossings(
                    squared_length(points, edge.i, point),
                    squared_length(points, point, edge.j),
                    &first,
                    &second,
                )
            }
        };
    }
    state.ring().clone()
}

fn hull(points: &[Point], concavity: f32) -> Vec<(usize, Point)> {
    ring_with_limit(points, rank(concavity.powi(2)))
        .into_iter()
        .map(|id| (id, points[id]))
        .collect()
}

/// Points in a numpad grid, in numpad order
///
/// 7 8 9
/// 4 5 6
/// 1 2 3
/// 0
const POINTS: [Point; 10] = [
    Point::new(0., 0.),
    Point::new(0., 1.),
    Point::new(1., 1.),
    Point::new(2., 1.),
    Point::new(0., 2.),
    Point::new(1., 2.),
    Point::new(2., 2.),
    Point::new(0., 3.),
    Point::new(1., 3.),
    Point::new(2., 3.),
];

fn question_mark() -> Vec<Point> {
    let coordinates: [(f32, f32); 82] = [
        (162., 168.),
        (182., 201.),
        (141., 208.),
        (158., 236.),
        (141., 92.),
        (160., 100.),
        (177., 70.),
        (151., 58.),
        (155., 75.),
        (134., 70.),
        (126., 53.),
        (139., 34.),
        (160., 29.),
        (167., 53.),
        (182., 34.),
        (192., 58.),
        (187., 87.),
        (173., 97.),
        (168., 75.),
        (153., 87.),
        (179., 225.),
        (163., 208.),
        (134., 230.),
        (143., 185.),
        (177., 180.),
        (163., 189.),
        (162., 219.),
        (182., 245.),
        (141., 274.),
        (156., 265.),
        (173., 293.),
        (187., 270.),
        (204., 306.),
        (165., 311.),
        (145., 299.),
        (158., 333.),
        (190., 335.),
        (206., 355.),
        (179., 347.),
        (204., 386.),
        (221., 362.),
        (243., 388.),
        (248., 361.),
        (177., 378.),
        (179., 401.),
        (196., 418.),
        (219., 410.),
        (240., 425.),
        (218., 439.),
        (228., 447.),
        (211., 466.),
        (197., 449.),
        (179., 435.),
        (155., 430.),
        (165., 415.),
        (134., 420.),
        (124., 442.),
        (153., 456.),
        (173., 466.),
        (192., 473.),
        (156., 481.),
        (119., 468.),
        (128., 483.),
        (138., 464.),
        (100., 442.),
        (112., 427.),
        (100., 408.),
        (78., 400.),
        (83., 422.),
        (61., 437.),
        (80., 456.),
        (100., 474.),
        (60., 461.),
        (43., 429.),
        (34., 446.),
        (32., 410.),
        (53., 396.),
        (60., 418.),
        (66., 401.),
        (247., 406.),
        (187., 320.),
        (221., 332.),
    ];
    coordinates.iter().map(|&(x, y)| Point::new(x, y)).collect()
}

#[test]
fn zero_points() {
    let hull = hull(&POINTS[0..0], 10.);
    assert_eq!(hull, Vec::new());
}

#[test]
fn one_point() {
    let hull = hull(&POINTS[0..1], 10.);
    assert_eq!(hull, Vec::from([(0, POINTS[0])]));
}

#[test]
fn two_points() {
    let hull = hull(&POINTS[0..2], 10.);
    assert_eq!(hull, Vec::from([(0, POINTS[0]), (1, POINTS[1])]));
}

#[test]
fn two_points_in_input_order() {
    // The first point lies to the left of the second, to the right of it,
    // below it and above it.
    for (x, y) in [(5., 0.), (-5., 0.), (0., 5.), (0., -5.), (3., -2.)] {
        let points = [Point::new(0., 0.), Point::new(x, y)];
        for concavity in [0., 10., f32::INFINITY] {
            assert_eq!(
                hull(&points, concavity),
                Vec::from([(0, points[0]), (1, points[1])])
            );
        }
    }
}

#[test]
fn three_points() {
    let hull = hull(&POINTS[0..3], 10.);
    assert_eq!(
        hull,
        Vec::from([(0, POINTS[0]), (2, POINTS[2]), (1, POINTS[1]),])
    );
}

#[test]
fn square() {
    let hull = hull(&[POINTS[1], POINTS[2], POINTS[4], POINTS[5]], 10.);
    assert_eq!(
        hull,
        Vec::from([
            (2, POINTS[4]),
            (0, POINTS[1]),
            (1, POINTS[2]),
            (3, POINTS[5]),
        ])
    );
}

#[test]
fn reasonable_concave() {
    let points = question_mark();
    let hull = hull(&points, 40.);

    let expected = Vec::from([
        (16, Point::new(187.0, 87.0)),
        (17, Point::new(173.0, 97.0)),
        (24, Point::new(177.0, 180.0)),
        (1, Point::new(182.0, 201.0)),
        (20, Point::new(179.0, 225.0)),
        (27, Point::new(182.0, 245.0)),
        (31, Point::new(187.0, 270.0)),
        (32, Point::new(204.0, 306.0)),
        (81, Point::new(221.0, 332.0)),
        (42, Point::new(248.0, 361.0)),
        (41, Point::new(243.0, 388.0)),
        (79, Point::new(247.0, 406.0)),
        (47, Point::new(240.0, 425.0)),
        (49, Point::new(228.0, 447.0)),
        (50, Point::new(211.0, 466.0)),
        (59, Point::new(192.0, 473.0)),
        (60, Point::new(156.0, 481.0)),
        (62, Point::new(128.0, 483.0)),
        (71, Point::new(100.0, 474.0)),
        (70, Point::new(80.0, 456.0)),
        (72, Point::new(60.0, 461.0)),
        (74, Point::new(34.0, 446.0)),
        (75, Point::new(32.0, 410.0)),
        (76, Point::new(53.0, 396.0)),
        (67, Point::new(78.0, 400.0)),
        (66, Point::new(100.0, 408.0)),
        (55, Point::new(134.0, 420.0)),
        (54, Point::new(165.0, 415.0)),
        (43, Point::new(177.0, 378.0)),
        (38, Point::new(179.0, 347.0)),
        (35, Point::new(158.0, 333.0)),
        (34, Point::new(145.0, 299.0)),
        (28, Point::new(141.0, 274.0)),
        (22, Point::new(134.0, 230.0)),
        (2, Point::new(141.0, 208.0)),
        (23, Point::new(143.0, 185.0)),
        (0, Point::new(162.0, 168.0)),
        (5, Point::new(160.0, 100.0)),
        (4, Point::new(141.0, 92.0)),
        (9, Point::new(134.0, 70.0)),
        (10, Point::new(126.0, 53.0)),
        (11, Point::new(139.0, 34.0)),
        (12, Point::new(160.0, 29.0)),
        (14, Point::new(182.0, 34.0)),
        (15, Point::new(192.0, 58.0)),
    ]);

    assert_eq!(hull, expected);
}

#[test]
fn maximally_concave() {
    let points = question_mark();
    let hull = hull(&points, 0.);

    let expected = Vec::from([
        (21, Point::new(163.0, 208.0)),
        (26, Point::new(162.0, 219.0)),
        (20, Point::new(179.0, 225.0)),
        (3, Point::new(158.0, 236.0)),
        (27, Point::new(182.0, 245.0)),
        (31, Point::new(187.0, 270.0)),
        (29, Point::new(156.0, 265.0)),
        (30, Point::new(173.0, 293.0)),
        (80, Point::new(187.0, 320.0)),
        (32, Point::new(204.0, 306.0)),
        (36, Point::new(190.0, 335.0)),
        (37, Point::new(206.0, 355.0)),
        (81, Point::new(221.0, 332.0)),
        (40, Point::new(221.0, 362.0)),
        (42, Point::new(248.0, 361.0)),
        (41, Point::new(243.0, 388.0)),
        (79, Point::new(247.0, 406.0)),
        (47, Point::new(240.0, 425.0)),
        (46, Point::new(219.0, 410.0)),
        (45, Point::new(196.0, 418.0)),
        (49, Point::new(228.0, 447.0)),
        (48, Point::new(218.0, 439.0)),
        (51, Point::new(197.0, 449.0)),
        (50, Point::new(211.0, 466.0)),
        (59, Point::new(192.0, 473.0)),
        (58, Point::new(173.0, 466.0)),
        (60, Point::new(156.0, 481.0)),
        (57, Point::new(153.0, 456.0)),
        (63, Point::new(138.0, 464.0)),
        (62, Point::new(128.0, 483.0)),
        (61, Point::new(119.0, 468.0)),
        (71, Point::new(100.0, 474.0)),
        (64, Point::new(100.0, 442.0)),
        (70, Point::new(80.0, 456.0)),
        (72, Point::new(60.0, 461.0)),
        (69, Point::new(61.0, 437.0)),
        (74, Point::new(34.0, 446.0)),
        (73, Point::new(43.0, 429.0)),
        (75, Point::new(32.0, 410.0)),
        (77, Point::new(60.0, 418.0)),
        (76, Point::new(53.0, 396.0)),
        (78, Point::new(66.0, 401.0)),
        (67, Point::new(78.0, 400.0)),
        (68, Point::new(83.0, 422.0)),
        (66, Point::new(100.0, 408.0)),
        (65, Point::new(112.0, 427.0)),
        (56, Point::new(124.0, 442.0)),
        (55, Point::new(134.0, 420.0)),
        (53, Point::new(155.0, 430.0)),
        (52, Point::new(179.0, 435.0)),
        (54, Point::new(165.0, 415.0)),
        (44, Point::new(179.0, 401.0)),
        (39, Point::new(204.0, 386.0)),
        (43, Point::new(177.0, 378.0)),
        (38, Point::new(179.0, 347.0)),
        (35, Point::new(158.0, 333.0)),
        (33, Point::new(165.0, 311.0)),
        (34, Point::new(145.0, 299.0)),
        (28, Point::new(141.0, 274.0)),
        (22, Point::new(134.0, 230.0)),
        (2, Point::new(141.0, 208.0)),
        (23, Point::new(143.0, 185.0)),
        (25, Point::new(163.0, 189.0)),
        (0, Point::new(162.0, 168.0)),
        (5, Point::new(160.0, 100.0)),
        (4, Point::new(141.0, 92.0)),
        (19, Point::new(153.0, 87.0)),
        (8, Point::new(155.0, 75.0)),
        (9, Point::new(134.0, 70.0)),
        (10, Point::new(126.0, 53.0)),
        (7, Point::new(151.0, 58.0)),
        (11, Point::new(139.0, 34.0)),
        (12, Point::new(160.0, 29.0)),
        (14, Point::new(182.0, 34.0)),
        (13, Point::new(167.0, 53.0)),
        (15, Point::new(192.0, 58.0)),
        (6, Point::new(177.0, 70.0)),
        (16, Point::new(187.0, 87.0)),
        (18, Point::new(168.0, 75.0)),
        (17, Point::new(173.0, 97.0)),
        (24, Point::new(177.0, 180.0)),
        (1, Point::new(182.0, 201.0)),
    ]);

    assert_eq!(hull, expected);
}

#[test]
fn minimally_concave() {
    let points = question_mark();
    let hull = hull(&points, f32::INFINITY);

    let expected = Vec::from([
        (50, Point::new(211.0, 466.0)),
        (59, Point::new(192.0, 473.0)),
        (60, Point::new(156.0, 481.0)),
        (62, Point::new(128.0, 483.0)),
        (71, Point::new(100.0, 474.0)),
        (72, Point::new(60.0, 461.0)),
        (74, Point::new(34.0, 446.0)),
        (75, Point::new(32.0, 410.0)),
        (10, Point::new(126.0, 53.0)),
        (11, Point::new(139.0, 34.0)),
        (12, Point::new(160.0, 29.0)),
        (14, Point::new(182.0, 34.0)),
        (15, Point::new(192.0, 58.0)),
        (42, Point::new(248.0, 361.0)),
        (79, Point::new(247.0, 406.0)),
        (47, Point::new(240.0, 425.0)),
        (49, Point::new(228.0, 447.0)),
    ]);

    assert_eq!(hull, expected);
}

fn ring_edges(ring: &[(usize, Point)]) -> Vec<(Edge, Point, Point)> {
    (0..ring.len())
        .map(|k| {
            let (i, a) = ring[k];
            let (j, b) = ring[(k + 1) % ring.len()];
            (Edge::new(i, j, rank((b - a).norm_squared())), a, b)
        })
        .collect()
}

#[test]
fn hull_never_intersects_itself() {
    let points = question_mark();
    for concavity in [0., 10., 40., 150., f32::INFINITY] {
        let edges = ring_edges(&hull(&points, concavity));
        for (p, (e, a, b)) in edges.iter().enumerate() {
            for (q, (f, c, d)) in edges.iter().enumerate() {
                if p != q {
                    assert!(!edges_intersect(e, f, segments_cross(*a, *b, *c, *d)));
                }
            }
        }
    }
}

#[test]
fn hull_names_no_point_twice() {
    let points = question_mark();
    for concavity in [0., 10., 40., 150., f32::INFINITY] {
        let mut indices: Vec<usize> = hull(&points, concavity).iter().map(|(id, _)| *id).collect();
        let count = indices.len();
        indices.sort();
        indices.dedup();
        assert_eq!(indices.len(), count);
        assert!(indices.iter().all(|&id| id < points.len()));
    }
}

#[test]
fn hull_points_are_those_of_the_cloud() {
    let points = question_mark();
    for (id, point) in hull(&points, 40.) {
        assert_eq!(point, points[id]);
    }
}

#[test]
fn infinite_concavity_gives_the_convex_hull() {
    let points = question_mark();
    let convex = convex_hull_idx(&points);
    let ring: Vec<usize> = hull(&points, f32::INFINITY).iter().map(|(id, _)| *id).collect();
    assert_eq!(ring.len(), convex.len());
    let start = convex.iter().position(|&id| id == ring[0]).unwrap();
    let turned: Vec<usize> = (0..convex.len()).map(|k| convex[(start + k) % convex.len()]).collect();
    assert_eq!(ring, turned);
    // The ring starts with the shortest edge of the hull, the last of them
    // where two are equally short.
    let norms: Vec<u64> = (0..convex.len())
        .map(|k| squared_length(&points, convex[k], convex[(k + 1) % convex.len()]))
        .collect();
    let least = *norms.iter().min().unwrap();
    assert_eq!(start, norms.iter().rposition(|&norm| norm == least).unwrap());
    assert_eq!(start, 10);
}

#[test]
fn concavity_beyond_every_edge_gives_the_convex_hull() {
    let points = question_mark();
    assert_eq!(hull(&points, 1000.), hull(&points, f32::INFINITY));
}

#[test]
fn zero_concavity_opens_further_than_any_other() {
    let points = question_mark();
    let tight = hull(&points, 0.).len();
    let loose = hull(&points, 40.).len();
    let convex = hull(&points, f32::INFINITY).len();
    assert_eq!((tight, loose, convex), (82, 45, 17));
}

#[test]
fn same_cloud_same_hull() {
    let points = question_mark();
    assert_eq!(hull(&points, 40.), hull(&points, 40.));
    assert_eq!(hull(&points, 0.), hull(&points, 0.));
}

#[test]
fn rank_keeps_the_order_of_the_numbers() {
    let numbers = [f32::NEG_INFINITY, -2.5, -0., 0., 1e-30, 1., 1.5, 4e9, f32::INFINITY];
    for pair in numbers.windows(2) {
        assert!(rank(pair[0]) < rank(pair[1]));
    }
    assert!(rank(f32::NAN) > rank(f32::INFINITY));
    for a in numbers {
        for b in numbers {
            assert_eq!(rank(a).cmp(&rank(b)), a.total_cmp(&b));
        }
    }
}

#[test]
fn rank_of_chosen_numbers() {
    assert_eq!(rank(0.), 0x8000_0000);
    assert_eq!(rank(-0.), 0x7fff_ffff);
    assert_eq!(rank(1.), 0xbf80_0000);
    assert_eq!(rank(-1.), 0x407f_ffff);
    assert_eq!(rank(f32::INFINITY), 0xff80_0000);
    assert_eq!(rank(f32::NEG_INFINITY), 0x007f_ffff);
    assert_eq!(rank32(0xffff_ffff), 0);
    assert_eq!(rank32(0x7fff_ffff), 0xffff_ffff);
}

#[test]
fn square_with_a_dent() {
    // The corners of a square and a point near the middle of its lower side.
    let points = [
        Point::new(0., 0.),
        Point::new(4., 0.),
        Point::new(4., 4.),
        Point::new(0., 4.),
        Point::new(2., 1.),
    ];
    let convex: Vec<usize> = hull(&points, 10.).iter().map(|(id, _)| *id).collect();
    assert_eq!(convex.len(), 4);
    assert!(!convex.contains(&4));
    let dented: Vec<usize> = hull(&points, 0.).iter().map(|(id, _)| *id).collect();
    assert_eq!(dented.len(), 5);
    let at = dented.iter().position(|&id| id == 4).unwrap();
    let before = dented[(at + 4) % 5];
    let after = dented[(at + 1) % 5];
    assert_eq!((before, after), (0, 1));
}
