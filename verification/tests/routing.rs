use optimizador_de_rutas::engine::{dijkstra_path, reconstruct_path};
use optimizador_de_rutas::geo::{haversine, MICRO_PER_DEGREE};
use optimizador_de_rutas::graph::{
    build_graph_from_osm_data, node_index, Edge, Element, Graph, OsmNode, RouteError,
};
use optimizador_de_rutas::locate::find_nearest_node;

fn point(id: i64, lat: i64, lon: i64) -> Element {
    Element::Node {
        id,
        lat: Some(lat),
        lon: Some(lon),
    }
}

fn segment(id: i64, ids: Vec<i64>) -> Element {
    Element::Way {
        id,
        nodes: Some(ids),
    }
}

#[test]
fn haversine_one_degree_on_equator() {
    // 1 degree of longitude on the equator: 6371 km * pi / 180.
    assert_eq!(haversine(0, 0, 0, MICRO_PER_DEGREE), 111194);
    assert_eq!(haversine(0, MICRO_PER_DEGREE, 0, 2 * MICRO_PER_DEGREE), 111194);
}

#[test]
fn haversine_zero_on_equal_points() {
    assert_eq!(haversine(12_345_678, -76_543_210, 12_345_678, -76_543_210), 0);
    assert_eq!(haversine(0, 0, 0, 0), 0);
    assert_eq!(haversine(-90_000_000, 180_000_000, -90_000_000, 180_000_000), 0);
}

#[test]
fn haversine_symmetric() {
    let a = (-12_117_970, -76_985_410);
    let b = (-12_100_000, -76_990_000);
    assert_eq!(haversine(a.0, a.1, b.0, b.1), haversine(b.0, b.1, a.0, a.1));
    assert_eq!(haversine(a.0, a.1, b.0, b.1), 2059);
    assert!(haversine(a.0, a.1, b.0, b.1) > 0);
    assert_eq!(
        haversine(10_000_000, 20_000_000, 11_000_000, 21_000_000),
        haversine(11_000_000, 21_000_000, 10_000_000, 20_000_000)
    );
}

#[test]
fn three_points_two_segments_route() {
    // A(0, 0), B(0, 1 degree), C(0, 2 degrees); segments A-B and B-C.
    let elements = vec![
        point(1, 0, 0),
        point(2, 0, 1_000_000),
        point(3, 0, 2_000_000),
        segment(10, vec![1, 2]),
        segment(11, vec![2, 3]),
    ];
    let (table, graph) = build_graph_from_osm_data(&elements).unwrap();
    assert_eq!(table.len(), 3);
    assert_eq!(graph.node_count, 3);
    assert_eq!(graph.edges.len(), 2);
    let w1 = haversine(0, 0, 0, 1_000_000);
    let w2 = haversine(0, 1_000_000, 0, 2_000_000);
    assert!(w1 > 0 && w2 > 0);
    assert_eq!(graph.edges[0], Edge { a: 0, b: 1, weight: w1 });
    assert_eq!(graph.edges[1], Edge { a: 1, b: 2, weight: w2 });
    let (total, preds) = dijkstra_path(&graph, 0, 2).unwrap();
    assert_eq!(total, w1 + w2);
    assert_eq!(total, 222388);
    assert_eq!(preds[2], Some(1));
    assert_eq!(preds[1], Some(0));
    assert_eq!(preds[0], None);
    let path = reconstruct_path(&preds, 0, 2).unwrap();
    assert_eq!(path, vec![0, 1, 2]);
    let ids: Vec<i64> = path.iter().map(|&i| table[i].id).collect();
    assert_eq!(ids, vec![1, 2, 3]);
    // The reported total equals the metric summed over the path's
    // consecutive points.
    let mut sum: u64 = 0;
    for w in path.windows(2) {
        let (p, q) = (&table[w[0]], &table[w[1]]);
        sum += haversine(p.lat, p.lon, q.lat, q.lon);
    }
    assert_eq!(total, sum);
}

#[test]
fn dangling_reference_is_skipped() {
    // The second segment references id 999, which no point record carries.
    let elements = vec![
        point(1, 0, 0),
        point(2, 0, 1_000_000),
        point(3, 0, 2_000_000),
        segment(10, vec![1, 2]),
        segment(11, vec![2, 999]),
    ];
    let r = build_graph_from_osm_data(&elements);
    let (table, graph) = r.unwrap();
    assert_eq!(table.len(), 3);
    // One fewer edge than the naive pair count of 2.
    assert_eq!(graph.edges.len(), 1);
    assert_eq!(node_index(&table, 999), None);
    assert_eq!(node_index(&table, 2), Some(1));
}

#[test]
fn node_count_equals_point_records() {
    let elements = vec![
        point(4, 1_000, 2_000),
        segment(20, vec![4, 5, 6]),
        point(5, 3_000, 4_000),
        point(6, 5_000, 6_000),
    ];
    let (table, graph) = build_graph_from_osm_data(&elements).unwrap();
    assert_eq!(table.len(), 3);
    assert_eq!(graph.node_count, 3);
    // Both pairs of the three-point segment resolve: naive count reached.
    assert_eq!(graph.edges.len(), 2);
}

#[test]
fn parse_error_on_missing_coordinate() {
    let elements = vec![Element::Node { id: 1, lat: None, lon: Some(0) }];
    assert_eq!(
        build_graph_from_osm_data(&elements).unwrap_err(),
        RouteError::ParseError
    );
    let elements = vec![Element::Node { id: 1, lat: Some(0), lon: None }];
    assert_eq!(
        build_graph_from_osm_data(&elements).unwrap_err(),
        RouteError::ParseError
    );
}

#[test]
fn parse_error_on_missing_way_nodes() {
    let elements = vec![point(1, 0, 0), Element::Way { id: 9, nodes: None }];
    assert_eq!(
        build_graph_from_osm_data(&elements).unwrap_err(),
        RouteError::ParseError
    );
}

#[test]
fn out_of_range_coordinates_fold_onto_the_sphere() {
    // Latitude 95N is 85N on the opposite meridian; longitudes wrap mod 360.
    assert_eq!(haversine(95_000_000, 0, 85_000_000, 180_000_000), 0);
    assert_eq!(haversine(0, 361_000_000, 0, 1_000_000), 0);
    assert_eq!(haversine(0, 0, 0, 361_000_000), 111194);
    assert_eq!(haversine(-370_000_000, 5_000_000, -10_000_000, 5_000_000), 0);
    // Structurally complete records build regardless of coordinate range.
    let elements = vec![
        point(1, 95_000_000, 0),
        point(2, 0, 181_000_000),
        segment(9, vec![1, 2]),
    ];
    let (table, graph) = build_graph_from_osm_data(&elements).unwrap();
    assert_eq!(table.len(), 2);
    assert_eq!(graph.edges.len(), 1);
    assert_eq!(
        graph.edges[0].weight,
        haversine(95_000_000, 0, 0, 181_000_000)
    );
}

#[test]
fn nearest_fails_on_empty_table() {
    let table: Vec<OsmNode> = Vec::new();
    assert_eq!(find_nearest_node(&table, 0, 0), Err(RouteError::NotFound));
}

#[test]
fn nearest_returns_exact_match_at_distance_zero() {
    let table = vec![
        OsmNode { id: 8, lat: 5_000_000, lon: 5_000_000 },
        OsmNode { id: 5, lat: 1_000_000, lon: 2_000_000 },
        OsmNode { id: 9, lat: -4_000_000, lon: 7_000_000 },
    ];
    let id = find_nearest_node(&table, 1_000_000, 2_000_000).unwrap();
    assert_eq!(id, 5);
    assert_eq!(haversine(1_000_000, 2_000_000, 1_000_000, 2_000_000), 0);
}

#[test]
fn nearest_tie_breaks_on_first_table_entry() {
    // Both nodes sit one degree from the query, on opposite sides.
    let table = vec![
        OsmNode { id: 7, lat: 0, lon: 1_000_000 },
        OsmNode { id: 3, lat: 0, lon: -1_000_000 },
    ];
    assert_eq!(find_nearest_node(&table, 0, 0).unwrap(), 7);
}

#[test]
fn same_start_and_end_gives_zero_distance() {
    let graph = Graph {
        node_count: 3,
        edges: vec![Edge { a: 0, b: 1, weight: 7 }, Edge { a: 1, b: 2, weight: 9 }],
    };
    let (total, preds) = dijkstra_path(&graph, 1, 1).unwrap();
    assert_eq!(total, 0);
    let path = reconstruct_path(&preds, 1, 1).unwrap();
    assert_eq!(path, vec![1]);
}

#[test]
fn no_path_across_components() {
    // Two components: {0, 1} and {2, 3}.
    let graph = Graph {
        node_count: 4,
        edges: vec![Edge { a: 0, b: 1, weight: 5 }, Edge { a: 2, b: 3, weight: 5 }],
    };
    assert_eq!(dijkstra_path(&graph, 0, 3), None);
    assert_eq!(dijkstra_path(&graph, 3, 0), None);
    assert!(dijkstra_path(&graph, 0, 1).is_some());
}

#[test]
fn parallel_edges_take_the_cheaper_one() {
    let graph = Graph {
        node_count: 2,
        edges: vec![Edge { a: 0, b: 1, weight: 5 }, Edge { a: 0, b: 1, weight: 3 }],
    };
    let (total, _) = dijkstra_path(&graph, 0, 1).unwrap();
    assert_eq!(total, 3);
}

#[test]
fn relaxation_improves_earlier_estimates() {
    // Direct edge 0-2 costs 4; the detour through 1 costs 2.
    let graph = Graph {
        node_count: 4,
        edges: vec![
            Edge { a: 0, b: 1, weight: 1 },
            Edge { a: 0, b: 2, weight: 4 },
            Edge { a: 1, b: 2, weight: 1 },
            Edge { a: 2, b: 3, weight: 1 },
        ],
    };
    let (total, preds) = dijkstra_path(&graph, 0, 3).unwrap();
    assert_eq!(total, 3);
    let path = reconstruct_path(&preds, 0, 3).unwrap();
    assert_eq!(path, vec![0, 1, 2, 3]);
}

#[test]
fn reconstruction_guards_against_cyclic_relations() {
    // A malformed predecessor relation must fail safely, not loop.
    let preds: Vec<Option<usize>> = vec![None, Some(2), Some(1)];
    assert_eq!(reconstruct_path(&preds, 0, 2), None);
}

#[test]
fn offline_route_calculation() {
    // A small map patch around Lima, with the query flow of a full run:
    // build, locate both endpoints, search, reconstruct.
    let elements = vec![
        point(100, -12_117_970, -76_985_410),
        point(101, -12_110_000, -76_987_000),
        point(102, -12_100_000, -76_990_000),
        point(103, -12_105_000, -76_970_000),
        segment(500, vec![100, 101, 102]),
        segment(501, vec![101, 103]),
    ];
    let (table, graph) = build_graph_from_osm_data(&elements).unwrap();
    assert_eq!(table.len(), 4);
    assert_eq!(graph.edges.len(), 3);
    let start_id = find_nearest_node(&table, -12_117_900, -76_985_400).unwrap();
    let end_id = find_nearest_node(&table, -12_100_100, -76_990_100).unwrap();
    assert_eq!(start_id, 100);
    assert_eq!(end_id, 102);
    let start_idx = node_index(&table, start_id).unwrap();
    let end_idx = node_index(&table, end_id).unwrap();
    let (total, preds) = dijkstra_path(&graph, start_idx, end_idx).unwrap();
    let path = reconstruct_path(&preds, start_idx, end_idx).unwrap();
    assert_eq!(path, vec![0, 1, 2]);
    let mut sum: u64 = 0;
    for w in path.windows(2) {
        let (p, q) = (&table[w[0]], &table[w[1]]);
        sum += haversine(p.lat, p.lon, q.lat, q.lon);
    }
    assert_eq!(total, sum);
    assert!(total > 0);
}
