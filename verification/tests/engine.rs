use point_viewer::cell::cell_at;
use point_viewer::client::PointCloudClient;
use point_viewer::data::AttrColumn;
use point_viewer::data::NodeData;
use point_viewer::geom::Aabb;
use point_viewer::geom::Plane;
use point_viewer::geom::Pos;
use point_viewer::index::Index;
use point_viewer::index::Node;
use point_viewer::pipeline::run_query;
use point_viewer::pipeline::schedule;
use point_viewer::pipeline::CallbackError;
use point_viewer::pipeline::Collector;
use point_viewer::pipeline::FailAfter;
use point_viewer::pipeline::FilterMode;
use point_viewer::pipeline::PointCounter;
use point_viewer::pipeline::QueryError;
use point_viewer::query::LocationPredicate;
use point_viewer::query::OrientedBox;
use point_viewer::query::Query;
use point_viewer::query::Volume;

const N_POINTS: usize = 100_000;

/// A synthetic cloud whose points all have a dominant positive x axis, so
/// they share one face of the cell hierarchy.
fn synthetic_cloud() -> Vec<Pos> {
    let mut pts = Vec::new();
    for i in 0..N_POINTS {
        let i = i as i64;
        pts.push(Pos {
            x: 600 + (i * 37) % 400,
            y: (i * 13) % 500 - 250,
            z: (i * 7) % 400 - 200,
        });
    }
    pts
}

fn color_of(p: &Pos) -> i64 {
    (p.x + 2 * p.y + 3 * p.z) % 256
}

fn intensity_of(p: &Pos) -> i64 {
    (p.x * 5 - p.y) % 1024
}

fn node_data_for(points: Vec<Pos>) -> NodeData {
    let color: Vec<i64> = points.iter().map(color_of).collect();
    let intensity: Vec<i64> = points.iter().map(intensity_of).collect();
    NodeData {
        positions: points,
        columns: vec![
            AttrColumn { name: "color".to_string(), values: color },
            AttrColumn { name: "intensity".to_string(), values: intensity },
        ],
    }
}

/// An octree over the synthetic cloud: a root box split into eight octants,
/// each point stored in its octant's child node.
fn octree_index() -> Index {
    let root_box = Aabb {
        min: Pos { x: 0, y: -1000, z: -1000 },
        max: Pos { x: 1999, y: 999, z: 999 },
    };
    let mut nodes = vec![Node { parent: None, volume: Volume::Box(root_box) }];
    let mut buckets: Vec<Vec<Pos>> = vec![Vec::new(); 8];
    for p in synthetic_cloud() {
        let ox = if p.x >= 1000 { 1 } else { 0 };
        let oy = if p.y >= 0 { 1 } else { 0 };
        let oz = if p.z >= 0 { 1 } else { 0 };
        buckets[ox * 4 + oy * 2 + oz].push(p);
    }
    let mut data = vec![Some(node_data_for(Vec::new()))];
    for o in 0..8 {
        let minx = if o >= 4 { 1000 } else { 0 };
        let miny = if (o / 2) % 2 == 1 { 0 } else { -1000 };
        let minz = if o % 2 == 1 { 0 } else { -1000 };
        let vol = Aabb {
            min: Pos { x: minx, y: miny, z: minz },
            max: Pos { x: minx + 999, y: miny + 999, z: minz + 999 },
        };
        nodes.push(Node { parent: Some(0), volume: Volume::Box(vol) });
        data.push(Some(node_data_for(buckets[o].clone())));
    }
    Index::new(nodes, data).expect("octree index should be well formed")
}

/// A cell index over the same cloud: one root cell at level zero holding
/// every point (they all share the dominant-x face).
fn cell_index() -> Index {
    let pts = synthetic_cloud();
    let root_cell = cell_at(&pts[0], 0);
    let nodes = vec![Node { parent: None, volume: Volume::Cell(root_cell) }];
    let data = vec![Some(node_data_for(pts))];
    Index::new(nodes, data).expect("cell index should be well formed")
}

fn all_points_query() -> Query {
    Query {
        attributes: vec!["color".to_string(), "intensity".to_string()],
        location: LocationPredicate::AllPoints,
    }
}

fn collect(ix: &Index, q: &Query, max_batch: usize) -> Collector {
    let mut c = Collector::new();
    run_query(ix, q, max_batch, &mut c).expect("query should succeed");
    c
}

fn collected_points(c: &Collector) -> Vec<(i64, i64, i64)> {
    let mut out = Vec::new();
    for b in &c.batches {
        for p in &b.positions {
            out.push((p.x, p.y, p.z));
        }
    }
    out
}

#[test]
fn all_points_octree_returns_every_point() {
    let ix = octree_index();
    let c = collect(&ix, &all_points_query(), 4096);
    assert_eq!(collected_points(&c).len(), N_POINTS);
}

#[test]
fn all_points_cell_index_returns_every_point() {
    let ix = cell_index();
    let c = collect(&ix, &all_points_query(), 4096);
    assert_eq!(collected_points(&c).len(), N_POINTS);
}

#[test]
fn box_query_matches_linear_scan() {
    // the octant x in [0,1000), y in [0,1000), z in [0,1000)
    let octant = Aabb {
        min: Pos { x: 0, y: 0, z: 0 },
        max: Pos { x: 999, y: 999, z: 999 },
    };
    let ix = octree_index();
    let q = Query {
        attributes: vec!["color".to_string()],
        location: LocationPredicate::AxisAlignedBox(octant),
    };
    let c = collect(&ix, &q, 1000);
    let mut got = collected_points(&c);
    got.sort();
    let mut expected: Vec<(i64, i64, i64)> = synthetic_cloud()
        .iter()
        .filter(|p| p.y >= 0 && p.z >= 0)
        .map(|p| (p.x, p.y, p.z))
        .collect();
    expected.sort();
    assert!(expected.len() < N_POINTS);
    assert_eq!(got, expected);
}

#[test]
fn attribute_columns_follow_their_points() {
    let ix = octree_index();
    let c = collect(&ix, &all_points_query(), 512);
    for b in &c.batches {
        assert_eq!(b.columns.len(), 2);
        for (i, p) in b.positions.iter().enumerate() {
            assert_eq!(b.columns[0][i], color_of(p));
            assert_eq!(b.columns[1][i], intensity_of(p));
        }
    }
}

#[test]
fn batches_respect_cap_and_alignment() {
    let ix = octree_index();
    let c = collect(&ix, &all_points_query(), 7);
    assert!(!c.batches.is_empty());
    for b in &c.batches {
        assert!(b.positions.len() <= 7);
        assert!(!b.positions.is_empty());
        for col in &b.columns {
            assert_eq!(col.len(), b.positions.len());
        }
    }
}

#[test]
fn callback_error_propagates_and_stops_delivery() {
    let ix = octree_index();
    let mut c: FailAfter<2, 77> = FailAfter::new();
    let r = run_query(&ix, &all_points_query(), 100, &mut c);
    assert_eq!(r, Err(QueryError::Callback(CallbackError { code: 77 })));
    assert_eq!(c.accepted_count(), 2);
}

#[test]
fn missing_attribute_is_reported() {
    let ix = octree_index();
    let q = Query {
        attributes: vec!["temperature".to_string()],
        location: LocationPredicate::AllPoints,
    };
    let mut c = Collector::new();
    let r = run_query(&ix, &q, 100, &mut c);
    assert_eq!(r, Err(QueryError::AttributeMissing(0)));
}

#[test]
fn missing_node_data_is_reported() {
    let root_box = Aabb {
        min: Pos { x: 0, y: 0, z: 0 },
        max: Pos { x: 10, y: 10, z: 10 },
    };
    let nodes = vec![Node { parent: None, volume: Volume::Box(root_box) }];
    let ix = Index::new(nodes, vec![None]).unwrap();
    let mut c = Collector::new();
    let r = run_query(&ix, &all_points_query(), 100, &mut c);
    assert_eq!(r, Err(QueryError::NodeLoad(0)));
}

#[test]
fn degenerate_box_is_rejected_before_traversal() {
    let ix = octree_index();
    let bad = Aabb {
        min: Pos { x: 10, y: 0, z: 0 },
        max: Pos { x: 0, y: 10, z: 10 },
    };
    let q = Query {
        attributes: vec!["color".to_string()],
        location: LocationPredicate::AxisAlignedBox(bad),
    };
    let mut c = Collector::new();
    let r = run_query(&ix, &q, 100, &mut c);
    assert_eq!(r, Err(QueryError::Geometry));
    assert!(c.batches.is_empty());
}

#[test]
fn disjoint_region_returns_nothing() {
    let ix = octree_index();
    let far = Aabb {
        min: Pos { x: -900, y: -900, z: -900 },
        max: Pos { x: -500, y: -500, z: -500 },
    };
    let q = Query {
        attributes: vec!["color".to_string()],
        location: LocationPredicate::AxisAlignedBox(far),
    };
    let c = collect(&ix, &q, 100);
    assert_eq!(collected_points(&c).len(), 0);
}

#[test]
fn scheduler_skips_and_takes_whole_nodes() {
    let ix = octree_index();
    // a box covering the whole positive-y, positive-z octants exactly
    let cover = Aabb {
        min: Pos { x: 0, y: -1000, z: -1000 },
        max: Pos { x: 1999, y: 999, z: 999 },
    };
    let w = schedule(&ix, &LocationPredicate::AxisAlignedBox(cover));
    // the root and all eight octants are inside: everything is taken whole
    assert_eq!(w.len(), 9);
    for (_, mode) in &w {
        assert_eq!(*mode, FilterMode::TakeAll);
    }
    let far = Aabb {
        min: Pos { x: -900, y: -900, z: -900 },
        max: Pos { x: -500, y: -500, z: -500 },
    };
    let w2 = schedule(&ix, &LocationPredicate::AxisAlignedBox(far));
    assert_eq!(w2.len(), 0);
}

#[test]
fn cell_union_roundtrip_returns_known_points_exactly() {
    let ix = octree_index();
    let pts = synthetic_cloud();
    let level = 8;
    // cells actually containing a thinned-out known point set
    let known: Vec<Pos> = pts.iter().cloned().step_by(97).collect();
    let cells: Vec<_> = known.iter().map(|p| cell_at(p, level)).collect();
    let q = Query {
        attributes: vec!["color".to_string()],
        location: LocationPredicate::CellUnion(cells.clone()),
    };
    let c = collect(&ix, &q, 4096);
    let mut got = collected_points(&c);
    got.sort();
    got.dedup();
    // brute force: every point of the cloud whose cell at the queried level
    // is one of the queried cells
    let mut expected: Vec<(i64, i64, i64)> = pts
        .iter()
        .filter(|p| cells.iter().any(|c0| *c0 == cell_at(p, c0.level)))
        .map(|p| (p.x, p.y, p.z))
        .collect();
    expected.sort();
    expected.dedup();
    assert_eq!(got, expected);
    // every known point is returned
    let gotset: std::collections::BTreeSet<(i64, i64, i64)> = got.into_iter().collect();
    for p in &known {
        assert!(gotset.contains(&(p.x, p.y, p.z)));
    }
}

#[test]
fn oriented_box_matches_axis_aligned_when_unrotated() {
    let ix = octree_index();
    let scale = 65536;
    let ob = OrientedBox {
        center: Pos { x: 800, y: 0, z: 0 },
        half: Pos { x: 200, y: 100, z: 50 },
        row_x: Pos { x: scale, y: 0, z: 0 },
        row_y: Pos { x: 0, y: scale, z: 0 },
        row_z: Pos { x: 0, y: 0, z: scale },
    };
    let q = Query {
        attributes: vec!["color".to_string()],
        location: LocationPredicate::OrientedBox(ob),
    };
    let c = collect(&ix, &q, 4096);
    let mut got = collected_points(&c);
    got.sort();
    let mut expected: Vec<(i64, i64, i64)> = synthetic_cloud()
        .iter()
        .filter(|p| {
            (p.x - 800).abs() <= 200 && p.y.abs() <= 100 && p.z.abs() <= 50
        })
        .map(|p| (p.x, p.y, p.z))
        .collect();
    expected.sort();
    assert!(!expected.is_empty());
    assert_eq!(got, expected);
}

#[test]
fn frustum_of_six_planes_selects_half_space_intersection() {
    let ix = octree_index();
    // x >= 700, x <= 900, y >= 0, y <= 200, z >= -100, z <= 100
    let planes = vec![
        Plane { a: 1, b: 0, c: 0, d: -700 },
        Plane { a: -1, b: 0, c: 0, d: 900 },
        Plane { a: 0, b: 1, c: 0, d: 0 },
        Plane { a: 0, b: -1, c: 0, d: 200 },
        Plane { a: 0, b: 0, c: 1, d: 100 },
        Plane { a: 0, b: 0, c: -1, d: 100 },
    ];
    let q = Query {
        attributes: vec!["color".to_string()],
        location: LocationPredicate::Frustum(planes),
    };
    let c = collect(&ix, &q, 4096);
    let mut got = collected_points(&c);
    got.sort();
    let mut expected: Vec<(i64, i64, i64)> = synthetic_cloud()
        .iter()
        .filter(|p| {
            p.x >= 700 && p.x <= 900 && p.y >= 0 && p.y <= 200 && p.z >= -100 && p.z <= 100
        })
        .map(|p| (p.x, p.y, p.z))
        .collect();
    expected.sort();
    assert!(!expected.is_empty());
    assert_eq!(got, expected);
}

#[test]
fn frustum_must_have_six_planes() {
    let ix = octree_index();
    let q = Query {
        attributes: vec!["color".to_string()],
        location: LocationPredicate::Frustum(vec![Plane { a: 1, b: 0, c: 0, d: 0 }]),
    };
    let mut c = Collector::new();
    assert_eq!(run_query(&ix, &q, 100, &mut c), Err(QueryError::Geometry));
}

#[test]
fn client_merges_multiple_sources() {
    let client = PointCloudClient::new(vec![octree_index(), cell_index()], 4096).unwrap();
    let mut c = Collector::new();
    client
        .for_each_point_data(&all_points_query(), &mut c)
        .expect("multi-source query should succeed");
    assert_eq!(collected_points(&c).len(), 2 * N_POINTS);
}

#[test]
fn point_counter_stops_at_its_limit() {
    let ix = octree_index();
    let mut under: PointCounter<150_000, 42> = PointCounter::new();
    run_query(&ix, &all_points_query(), 4096, &mut under).expect("under the limit");
    assert_eq!(under.count(), N_POINTS as u64);

    let mut over: PointCounter<50_000, 42> = PointCounter::new();
    let r = run_query(&ix, &all_points_query(), 4096, &mut over);
    assert_eq!(r, Err(QueryError::Callback(CallbackError { code: 42 })));
    assert!(over.count() >= 50_000);
    assert!(over.count() < N_POINTS as u64);
}

#[test]
fn load_batch_returns_columns_in_request_order() {
    let ix = octree_index();
    // node 1 is the first octant child
    let b = ix
        .load_batch(1, &vec!["intensity".to_string(), "color".to_string()])
        .expect("node should load");
    assert_eq!(b.columns.len(), 2);
    for (i, p) in b.positions.iter().enumerate() {
        assert_eq!(b.columns[0][i], intensity_of(p));
        assert_eq!(b.columns[1][i], color_of(p));
    }
    let missing = ix.load_batch(1, &vec!["radius".to_string()]);
    assert!(matches!(missing, Err(QueryError::AttributeMissing(1))));
}
