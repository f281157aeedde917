use parcelscan::edges::{classify, classify_faces, probe, Edge, EdgeClassification};
use parcelscan::geometry::{bounding_box, isqrt, make_ccw, ring_twice_area, Envelope, MultiPolygon, Polygon, Pt};
use parcelscan::index::{GeometryError, PolygonWrapper, SpatialIndex};
use parcelscan::neighbors::{get_zoning, query};
use parcelscan::setback::{compute, SetbackMeasurement};
use parcelscan::siting::site_footprint;

fn pt(x: i64, y: i64) -> Pt {
    Pt::new(x, y)
}

fn rect(x0: i64, y0: i64, x1: i64, y1: i64) -> MultiPolygon {
    MultiPolygon {
        polygons: vec![Polygon { exterior: vec![pt(x0, y0), pt(x1, y0), pt(x1, y1), pt(x0, y1)], holes: vec![] }],
    }
}

fn record(shape: MultiPolygon, c: Pt, name: &str) -> PolygonWrapper<String> {
    PolygonWrapper::new(shape, c, name.to_string()).unwrap()
}

fn feet(m: &SetbackMeasurement) -> f64 {
    ((m.dist2_num as f64) / (m.dist2_den as f64)).sqrt() / 100.0
}

/// A 100 ft square lot with neighbours to the west, east and south; open to the north.
fn square_block() -> SpatialIndex<String> {
    SpatialIndex::build(vec![
        record(rect(0, 0, 10000, 10000), pt(5000, 5000), "lot"),
        record(rect(-10000, 0, 0, 10000), pt(-5000, 5000), "west"),
        record(rect(10000, 0, 20000, 10000), pt(15000, 5000), "east"),
        record(rect(0, -10000, 10000, 0), pt(5000, -5000), "south"),
    ])
}

#[test]
fn square_lot_has_front_sides_and_rear() {
    let index = square_block();
    let edges = classify(&rect(0, 0, 10000, 10000), &index);
    assert_eq!(edges.len(), 4);
    let expect = [
        (pt(0, 0), pt(10000, 0), EdgeClassification::Rear),
        (pt(10000, 0), pt(10000, 10000), EdgeClassification::Side),
        (pt(10000, 10000), pt(0, 10000), EdgeClassification::Front),
        (pt(0, 10000), pt(0, 0), EdgeClassification::Side),
    ];
    for (e, (s, t, c)) in edges.iter().zip(expect.iter()) {
        assert_eq!(*e, Edge { start: *s, end: *t, classification: *c });
    }
    let fronts = edges.iter().filter(|e| e.classification == EdgeClassification::Front).count();
    assert_eq!(fronts, 1);
}

#[test]
fn clockwise_lot_is_rewound_before_classification() {
    let index = square_block();
    let cw = MultiPolygon {
        polygons: vec![Polygon {
            exterior: vec![pt(0, 0), pt(0, 10000), pt(10000, 10000), pt(10000, 0)],
            holes: vec![],
        }],
    };
    let edges = classify(&cw, &index);
    assert_eq!(edges.len(), 4);
    assert_eq!(edges[0].start, pt(10000, 0));
    assert_eq!(edges[1].classification, EdgeClassification::Front);
    assert_eq!(edges[3].classification, EdgeClassification::Rear);
}

#[test]
fn classification_gives_one_label_per_edge() {
    let index = square_block();
    let lot = MultiPolygon {
        polygons: vec![Polygon {
            exterior: vec![pt(0, 0), pt(5000, -2000), pt(10000, 0), pt(12000, 6000), pt(5000, 12000), pt(-1000, 6000)],
            holes: vec![],
        }],
    };
    let edges = classify(&lot, &index);
    assert_eq!(edges.len(), 6);
    let two = MultiPolygon {
        polygons: vec![
            Polygon { exterior: vec![pt(0, 0), pt(100, 0), pt(0, 100)], holes: vec![] },
            Polygon { exterior: vec![pt(500, 500), pt(600, 500), pt(600, 600), pt(500, 600)], holes: vec![] },
        ],
    };
    assert_eq!(classify(&two, &index).len(), 7);
}

#[test]
fn collinear_edges_are_indeterminate() {
    let index = square_block();
    let lot = MultiPolygon {
        polygons: vec![Polygon {
            exterior: vec![pt(0, 0), pt(5000, 0), pt(10000, 0), pt(10000, 10000), pt(0, 10000)],
            holes: vec![],
        }],
    };
    let edges = classify(&lot, &index);
    assert_eq!(edges.len(), 5);
    assert_eq!(edges[0].classification, EdgeClassification::Indeterminate);
    assert_eq!(edges[1].classification, EdgeClassification::Rear);
    assert_eq!(edges[3].classification, EdgeClassification::Front);
}

#[test]
fn classify_faces_follows_neighbours_cyclically() {
    let faces = vec![Some(false), Some(false), Some(true), Some(false), None, Some(false)];
    let c = classify_faces(&faces);
    assert_eq!(
        c,
        vec![
            EdgeClassification::Rear,
            EdgeClassification::Side,
            EdgeClassification::Front,
            EdgeClassification::Side,
            EdgeClassification::Indeterminate,
            EdgeClassification::Rear,
        ]
    );
    let wrap = classify_faces(&vec![Some(false), Some(false), Some(true)]);
    assert_eq!(wrap[0], EdgeClassification::Side);
    assert!(classify_faces(&vec![]).is_empty());
}

#[test]
fn probe_lies_ten_feet_outside_the_midpoint() {
    assert_eq!(probe(pt(0, 0), pt(10000, 0), pt(10000, 10000)), Some(pt(5000, -1000)));
    assert_eq!(probe(pt(10000, 10000), pt(0, 10000), pt(0, 0)), Some(pt(5000, 11000)));
    // a diagonal edge of length 5 units: midpoint (2, 1) after rounding down, offset (-600, 800)
    assert_eq!(probe(pt(0, 0), pt(4, 3), pt(0, 10)), Some(pt(602, -799)));
    assert_eq!(probe(pt(0, 0), pt(10, 0), pt(20, 0)), None);
    assert_eq!(probe(pt(5, 5), pt(5, 5), pt(9, 1)), None);
}

#[test]
fn integer_square_root_is_the_floor() {
    assert_eq!(isqrt(0), 0);
    assert_eq!(isqrt(1), 1);
    assert_eq!(isqrt(24), 4);
    assert_eq!(isqrt(25), 5);
    assert_eq!(isqrt(u64::MAX), 4294967295);
}

#[test]
fn shoelace_area_and_rewinding() {
    let ccw = vec![pt(0, 0), pt(3000, 0), pt(3000, 4000), pt(0, 4000)];
    assert_eq!(ring_twice_area(&ccw), 24_000_000);
    let cw: Vec<Pt> = ccw.iter().rev().cloned().collect();
    assert_eq!(ring_twice_area(&cw), -24_000_000);
    assert_eq!(make_ccw(&cw), ccw);
    let cw_from_origin = vec![pt(0, 0), pt(0, 4000), pt(3000, 4000), pt(3000, 0)];
    assert_eq!(make_ccw(&cw_from_origin), vec![pt(3000, 0), pt(3000, 4000), pt(0, 4000), pt(0, 0)]);
    assert_eq!(make_ccw(&ccw), ccw);
}

#[test]
fn bounding_box_of_points() {
    let b = bounding_box(&vec![pt(3, -2), pt(-7, 5), pt(1, 9)]).unwrap();
    assert_eq!(b, Envelope { min_x: -7, min_y: -2, max_x: 3, max_y: 9 });
    assert_eq!(bounding_box(&vec![]), None);
}

#[test]
fn wrapper_of_empty_shape_is_degenerate() {
    let empty = MultiPolygon { polygons: vec![] };
    assert_eq!(PolygonWrapper::new(empty, pt(0, 0), 1u8).err(), Some(GeometryError::DegenerateGeometry));
    let w = PolygonWrapper::new(rect(-5, 2, 7, 9), pt(1, 5), 1u8).unwrap();
    assert_eq!(w.bounding_box, Envelope { min_x: -5, min_y: 2, max_x: 7, max_y: 9 });
}

#[test]
fn setbacks_are_non_negative_and_zero_on_the_edge() {
    let edges = vec![
        Edge { start: pt(0, 0), end: pt(10000, 0), classification: EdgeClassification::Rear },
        Edge { start: pt(10000, 0), end: pt(10000, 10000), classification: EdgeClassification::Side },
        Edge { start: pt(10000, 10000), end: pt(0, 10000), classification: EdgeClassification::Front },
    ];
    // one footprint vertex sits on the rear edge
    let footprint = MultiPolygon {
        polygons: vec![Polygon { exterior: vec![pt(4000, 0), pt(6000, 2000), pt(4000, 3000)], holes: vec![] }],
    };
    let m = compute(&edges, &footprint).unwrap();
    assert_eq!(m.len(), 3);
    assert_eq!(m[0].dist2_num, 0);
    assert_eq!(m[0].classification, EdgeClassification::Rear);
    assert!((feet(&m[1]) - 40.0).abs() < 1e-9);
    assert!((feet(&m[2]) - 70.0).abs() < 1e-9);
    for x in &m {
        assert!(x.dist2_den > 0);
        assert!(feet(x) >= 0.0);
    }
}

#[test]
fn setback_to_an_edge_end_and_to_a_point_edge() {
    let edges = vec![
        Edge { start: pt(0, 0), end: pt(300, 0), classification: EdgeClassification::Side },
        Edge { start: pt(50, 50), end: pt(50, 50), classification: EdgeClassification::Indeterminate },
    ];
    let footprint = MultiPolygon {
        polygons: vec![Polygon { exterior: vec![pt(600, 400), pt(700, 400), pt(700, 500)], holes: vec![] }],
    };
    let m = compute(&edges, &footprint).unwrap();
    // nearest is the end (300, 0) to (600, 400): 500 units
    assert_eq!(m[0].dist2_num, 250_000 * 90_000);
    assert_eq!(m[0].dist2_den, 90_000);
    assert_eq!(m[1].dist2_num, 550 * 550 + 350 * 350);
    assert_eq!(m[1].dist2_den, 1);
}

#[test]
fn setbacks_of_an_empty_footprint_fail() {
    let edges = vec![Edge { start: pt(0, 0), end: pt(10, 0), classification: EdgeClassification::Rear }];
    let empty = MultiPolygon { polygons: vec![Polygon { exterior: vec![], holes: vec![] }] };
    assert_eq!(compute(&edges, &empty), Err(GeometryError::DegenerateGeometry));
}

#[test]
fn locate_finds_the_covering_lot_only() {
    let index = square_block();
    let i = index.locate_at_point(pt(5000, 5000)).unwrap();
    assert_eq!(index.record(i).value, "lot");
    let j = index.locate_at_point(pt(15000, 100)).unwrap();
    assert_eq!(index.record(j).value, "east");
    assert_eq!(index.locate_at_point(pt(5000, 10500)), None);
    assert_eq!(index.locate_at_point(pt(-50000, -50000)), None);
}

#[test]
fn locate_misses_a_point_in_the_box_but_outside_the_shape() {
    let triangle = MultiPolygon {
        polygons: vec![Polygon { exterior: vec![pt(0, 0), pt(1000, 0), pt(0, 1000)], holes: vec![] }],
    };
    let index = SpatialIndex::build(vec![record(triangle, pt(333, 333), "t")]);
    assert_eq!(index.locate_at_point(pt(100, 100)), Some(0));
    assert_eq!(index.locate_at_point(pt(900, 900)), None);
}

#[test]
fn locate_respects_holes() {
    let ring = MultiPolygon {
        polygons: vec![Polygon {
            exterior: vec![pt(0, 0), pt(1000, 0), pt(1000, 1000), pt(0, 1000)],
            holes: vec![vec![pt(400, 400), pt(600, 400), pt(600, 600), pt(400, 600)]],
        }],
    };
    let index = SpatialIndex::build(vec![record(ring, pt(500, 100), "courtyard")]);
    assert_eq!(index.locate_at_point(pt(100, 100)), Some(0));
    assert_eq!(index.locate_at_point(pt(500, 500)), None);
}

#[test]
fn envelope_query_is_a_box_filter() {
    let index = square_block();
    let mut hits = index.locate_in_envelope_intersecting(Envelope { min_x: 12000, min_y: 2000, max_x: 13000, max_y: 3000 });
    hits.sort();
    assert_eq!(hits.len(), 1);
    assert_eq!(index.record(hits[0]).value, "east");
    let mut all = index.locate_in_envelope_intersecting(Envelope { min_x: 0, min_y: 0, max_x: 0, max_y: 0 });
    all.sort();
    assert_eq!(all, vec![0, 1, 3]);
}

#[test]
fn neighbours_exclude_the_shape_itself() {
    let index = square_block();
    let mut n = query(&index, &rect(0, 0, 10000, 10000), pt(5000, 5000), 10001);
    n.sort();
    let names: Vec<&str> = n.iter().map(|i| index.record(*i).value.as_str()).collect();
    assert_eq!(names, vec!["west", "east", "south"]);
    // strictly closer than the radius
    assert!(query(&index, &rect(0, 0, 10000, 10000), pt(5000, 5000), 10000).is_empty());
}

#[test]
fn zoning_lookup_by_centroid() {
    let zoning = SpatialIndex::build(vec![
        record(rect(-20000, -20000, 0, 20000), pt(-10000, 0), "RH-1"),
        record(rect(0, -20000, 20000, 20000), pt(10000, 0), "RH-2"),
    ]);
    let z = get_zoning(&zoning, pt(5000, 100)).unwrap();
    assert_eq!(zoning.record(z).value, "RH-2");
    assert_eq!(get_zoning(&zoning, pt(50000, 0)), None);
}

#[test]
fn footprint_sited_fifteen_feet_from_the_rear() {
    // a 30 ft x 83 ft lot (2,490 sq ft) facing north, neighbours on the other sides
    let lots = SpatialIndex::build(vec![
        record(rect(0, 0, 3000, 8300), pt(1500, 4150), "lot"),
        record(rect(-3000, 0, 0, 8300), pt(-1500, 4150), "west"),
        record(rect(3000, 0, 6000, 8300), pt(4500, 4150), "east"),
        record(rect(0, -8300, 3000, 0), pt(1500, -4150), "south"),
    ]);
    let zoning = SpatialIndex::build(vec![record(rect(-10000, -10000, 10000, 10000), pt(0, 0), "RH-2")]);
    // a 30 ft x 40 ft building (1,200 sq ft), 15 ft from the rear line
    let building = rect(0, 1500, 3000, 5500);
    let s = site_footprint(&lots, &zoning, &building, pt(1500, 3500)).unwrap();
    assert_eq!(lots.record(s.lot.unwrap()).value, "lot");
    assert_eq!(zoning.record(s.zoning.unwrap()).value, "RH-2");
    let setbacks = s.setbacks.unwrap();
    let rear: Vec<&SetbackMeasurement> =
        setbacks.iter().filter(|m| m.classification == EdgeClassification::Rear).collect();
    assert_eq!(rear.len(), 1);
    assert!((feet(rear[0]) - 15.0).abs() < 0.1);
    let building_area = ring_twice_area(&building.polygons[0].exterior) as f64 / 2.0 / 10_000.0;
    let lot_area = ring_twice_area(&rect(0, 0, 3000, 8300).polygons[0].exterior) as f64 / 2.0 / 10_000.0;
    assert!((building_area - 1200.0).abs() < 1e-9);
    assert!((lot_area - 2490.0).abs() < 1e-9);
    assert!((building_area / lot_area - 0.482).abs() < 0.001);
}

#[test]
fn footprint_outside_every_lot() {
    let lots = square_block();
    let zoning = SpatialIndex::build(vec![record(rect(0, 0, 100, 100), pt(50, 50), "RH-1")]);
    let s = site_footprint(&lots, &zoning, &rect(50000, 50000, 50100, 50100), pt(50050, 50050)).unwrap();
    assert!(s.lot.is_none() && s.setbacks.is_none() && s.edges.is_none() && s.zoning.is_none());
    let none = MultiPolygon { polygons: vec![] };
    assert_eq!(site_footprint(&lots, &zoning, &none, pt(0, 0)).err(), Some(GeometryError::DegenerateGeometry));
}
