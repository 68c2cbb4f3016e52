use orca_tree_supports::branch_generation::{Branch, BranchGenerationResult, SupportNode};
use orca_tree_supports::interface_layers::{InterfaceLayer, InterfaceResult};
use orca_tree_supports::placement::{draw_circle, generate_support_output};
use orca_tree_supports::utils::Point2D;

fn poly(tag: i64) -> Vec<Point2D> {
    vec![Point2D::new(tag, 0), Point2D::new(0, tag)]
}

fn node(layer: usize) -> SupportNode<f64> {
    SupportNode::new_contact(0, Point2D::new(layer as i64 * 10, 0), 0.0, layer, 200_000)
}

fn node_circle(layer: usize) -> Vec<Point2D> {
    draw_circle(&Point2D::new(layer as i64 * 10, 0), 200_000, 16)
}

#[test]
fn test_draw_circle() {
    let center = Point2D::new(0, 0);
    let polygon = draw_circle(&center, 1_000_000, 8);
    assert_eq!(polygon.len(), 8);
}

#[test]
fn circle_points_are_truncated_trigonometry() {
    let p = draw_circle(&Point2D::new(0, 0), 1_000_000, 8);
    assert_eq!(
        p,
        vec![
            Point2D::new(1_000_000, 0),
            Point2D::new(707_106, 707_106),
            Point2D::new(0, 1_000_000),
            Point2D::new(-707_106, 707_106),
            Point2D::new(-1_000_000, 0),
            Point2D::new(-707_106, -707_106),
            Point2D::new(0, -1_000_000),
            Point2D::new(707_106, -707_106),
        ]
    );
    let q = draw_circle(&Point2D::new(10, -10), 1_000_000, 16);
    assert_eq!(q[1], Point2D::new(10 + 923_879, -10 + 382_683));
    assert_eq!(q[3], Point2D::new(10 + 382_683, -10 + 923_879));
    assert_eq!(q[13], Point2D::new(10 + 382_683, -10 - 923_879));
    // a negative radius mirrors the circle through its center
    let n = draw_circle(&Point2D::new(0, 0), -1_000_000, 16);
    assert_eq!(n[1], Point2D::new(-923_879, -382_683));
    assert!(draw_circle(&Point2D::new(5, 5), 100, 0).is_empty());
    assert_eq!(draw_circle(&Point2D::new(5, 5), 100, 1), vec![Point2D::new(105, 5)]);
}

#[test]
fn circle_points_match_float_trigonometry() {
    for &r in &[1i64, 2, 3, 7, 100, 999, 200_000, 1_000_000, 123_456_789, 2_147_483_647] {
        for &n in &[1usize, 2, 4, 8, 16] {
            let pts = draw_circle(&Point2D::new(0, 0), r, n);
            for (i, p) in pts.iter().enumerate() {
                let angle = 2.0 * std::f64::consts::PI * (i as f64) / (n as f64);
                assert_eq!(p.x, (r as f64 * angle.cos()) as i64, "r {} n {} i {}", r, n, i);
                assert_eq!(p.y, (r as f64 * angle.sin()) as i64, "r {} n {} i {}", r, n, i);
            }
        }
    }
}

#[test]
fn single_node_gives_one_layer() {
    let branches = BranchGenerationResult {
        branches: vec![Branch { nodes: vec![node(0)], reaches_buildplate: true }],
        total_nodes: 1,
    };
    let interface = InterfaceResult { roof_layers: vec![], floor_layers: vec![] };
    let layer_heights = vec![0.0, 0.2, 0.4, 0.6];
    let output = generate_support_output(&branches, &interface, &layer_heights);
    assert_eq!(output.branch_count, 1);
    assert_eq!(output.layers.len(), 1);
    assert_eq!(output.layers[0].layer_index, 0);
    assert_eq!(output.layers[0].polygons, vec![node_circle(0)]);
}

#[test]
fn nothing_gives_no_layers() {
    let branches: BranchGenerationResult<f64> = BranchGenerationResult { branches: vec![], total_nodes: 0 };
    let interface = InterfaceResult { roof_layers: vec![], floor_layers: vec![] };
    let output = generate_support_output(&branches, &interface, &[0.0, 0.2, 0.4]);
    assert_eq!(output.branch_count, 0);
    assert!(output.layers.is_empty());
}

#[test]
fn layers_collect_nodes_then_roofs_then_floors() {
    let branches = BranchGenerationResult {
        branches: vec![
            Branch { nodes: vec![node(2), node(1), node(0)], reaches_buildplate: true },
            Branch { nodes: vec![node(7), node(2)], reaches_buildplate: false },
        ],
        total_nodes: 5,
    };
    let roof = InterfaceLayer { z: 0.4, layer_index: 2, is_roof: true, polygons: vec![poly(200), poly(201)], fill_angle: 0.0 };
    let floor = InterfaceLayer { z: 0.0, layer_index: 0, is_roof: false, polygons: vec![poly(300)], fill_angle: 0.0 };
    let beyond = InterfaceLayer { z: 9.0, layer_index: 9, is_roof: false, polygons: vec![poly(900)], fill_angle: 0.0 };
    let interface = InterfaceResult { roof_layers: vec![roof], floor_layers: vec![floor, beyond] };
    let heights = vec![0.0, 0.2, 0.4, 0.6];
    let output = generate_support_output(&branches, &interface, &heights);
    assert_eq!(output.branch_count, 2);
    let idx: Vec<usize> = output.layers.iter().map(|l| l.layer_index).collect();
    // layer 3 gets nothing; the node at layer 7 and the floor at 9 have no height.
    assert_eq!(idx, vec![0, 1, 2]);
    assert_eq!(output.layers[0].polygons, vec![node_circle(0), poly(300)]);
    assert_eq!(output.layers[1].polygons, vec![node_circle(1)]);
    assert_eq!(output.layers[2].polygons, vec![node_circle(2), node_circle(2), poly(200), poly(201)]);
    assert_eq!(output.layers[2].z, 0.4);
}

#[test]
fn nodes_beyond_the_last_layer_are_not_drawn() {
    // A radius too large to draw is fine where the node's layer has no height.
    let far = SupportNode::new_contact(0, Point2D::new(0, 0), 0.0, 9, i64::MAX);
    let branches = BranchGenerationResult {
        branches: vec![Branch { nodes: vec![node(1), far], reaches_buildplate: false }],
        total_nodes: 2,
    };
    let interface = InterfaceResult { roof_layers: vec![], floor_layers: vec![] };
    let out = generate_support_output(&branches, &interface, &[0.0, 0.2]);
    assert_eq!(out.layers.len(), 1);
    assert_eq!(out.layers[0].layer_index, 1);
    assert_eq!(out.layers[0].polygons, vec![node_circle(1)]);
}

#[test]
fn test_generate_support_output_basic() {
    let node = SupportNode::new_contact(0, Point2D::new(5_000_000, 5_000_000), 0.4, 2, 200_000);
    let branches = BranchGenerationResult {
        branches: vec![Branch { nodes: vec![node], reaches_buildplate: true }],
        total_nodes: 1,
    };
    let interface = InterfaceResult { roof_layers: vec![], floor_layers: vec![] };
    let layer_heights = vec![0.0, 0.2, 0.4, 0.6];
    let output = generate_support_output(&branches, &interface, &layer_heights);
    assert_eq!(output.branch_count, 1);
    assert!(!output.layers.is_empty());
}

#[test]
fn test_generate_support_output_empty() {
    let branches: BranchGenerationResult<f64> = BranchGenerationResult { branches: vec![], total_nodes: 0 };
    let interface = InterfaceResult { roof_layers: vec![], floor_layers: vec![] };
    let layer_heights = vec![0.0, 0.2, 0.4];
    let output = generate_support_output(&branches, &interface, &layer_heights);
    assert_eq!(output.branch_count, 0);
    assert!(output.layers.is_empty());
}

fn pts(v: &[(i64, i64)]) -> Vec<Point2D> {
    v.iter().map(|&(x, y)| Point2D::new(x, y)).collect()
}

#[test]
fn circle_beyond_two_to_the_31() {
    let r = 1i64 << 31;
    let expected = pts(&[
        (r, 0),
        (1518500249, 1518500249),
        (0, r),
        (-1518500249, 1518500249),
        (-r, 0),
        (-1518500249, -1518500249),
        (0, -r),
        (1518500249, -1518500249),
    ]);
    assert_eq!(draw_circle(&Point2D::new(0, 0), r, 8), expected);
}

#[test]
fn circle_of_radius_two_to_the_62() {
    let r = 1i64 << 62;
    let a = 4260642322793532497;
    let b = 3260954456333195553;
    let c = 1764815834521887441;
    let expected = pts(&[
        (r, 0),
        (a, c),
        (b, b),
        (c, a),
        (0, r),
        (-c, a),
        (-b, b),
        (-a, c),
        (-r, 0),
        (-a, -c),
        (-b, -b),
        (-c, -a),
        (0, -r),
        (c, -a),
        (b, -b),
        (a, -c),
    ]);
    assert_eq!(draw_circle(&Point2D::new(0, 0), r, 16), expected);
}

#[test]
fn negative_huge_radius_mirrors_the_circle() {
    let got = draw_circle(&Point2D::new(-5, 7), -(1i64 << 62) - 12345, 16);
    let expected = pts(&[
        (-4611686018427400254, 7),
        (-4260642322793543907, -1764815834521892158),
        (-3260954456333204287, -3260954456333204275),
        (-1764815834521892170, -4260642322793543895),
        (-5, -4611686018427400242),
        (1764815834521892160, -4260642322793543895),
        (3260954456333204277, -3260954456333204275),
        (4260642322793543897, -1764815834521892158),
        (4611686018427400244, 7),
        (4260642322793543897, 1764815834521892172),
        (3260954456333204277, 3260954456333204289),
        (1764815834521892160, 4260642322793543909),
        (-5, 4611686018427400256),
        (-1764815834521892170, 4260642322793543909),
        (-3260954456333204287, 3260954456333204289),
        (-4260642322793543907, 1764815834521892172),
    ]);
    assert_eq!(got, expected);
}

#[test]
fn radius_of_i64_min_draws_its_one_point() {
    assert_eq!(draw_circle(&Point2D::new(0, 0), i64::MIN, 1), pts(&[(i64::MIN, 0)]));
}

#[test]
fn huge_node_radius_goes_into_the_output() {
    let big = SupportNode::new_contact(0, Point2D::new(0, 0), 0.0, 1, 1i64 << 40);
    let branches = BranchGenerationResult {
        branches: vec![Branch { nodes: vec![big], reaches_buildplate: false }],
        total_nodes: 1,
    };
    let interface = InterfaceResult { roof_layers: vec![], floor_layers: vec![] };
    let out = generate_support_output(&branches, &interface, &[0.0, 0.2]);
    assert_eq!(out.layers.len(), 1);
    assert_eq!(out.layers[0].polygons, vec![draw_circle(&Point2D::new(0, 0), 1i64 << 40, 16)]);
    assert_eq!(out.layers[0].polygons[0][0], Point2D::new(1i64 << 40, 0));
}
