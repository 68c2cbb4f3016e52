use orca_tree_supports::branch_generation::{
    build_branch, count_nodes, generate_contact_points, smooth_branch, Branch, DropStep, NodeType,
    SupportNode,
};
use orca_tree_supports::config::{ScaledDerivedSettings, ScaledSupportConfig};
use orca_tree_supports::overhang_detection::{OverhangArea, OverhangResult};
use orca_tree_supports::utils::Point2D;

fn scaled_config() -> ScaledSupportConfig {
    ScaledSupportConfig {
        layer_height: 150_000,
        support_bottom_enable: false,
        support_bottom_height: 1_000_000,
        support_xy_distance: 700_000,
        support_xy_distance_overhang: 200_000,
        support_top_distance: 100_000,
        support_bottom_distance: 100_000,
        support_roof_enable: false,
        support_roof_layers: 2,
        support_floor_enable: false,
        support_floor_layers: 2,
        support_tree_branch_diameter: 2_000_000,
        support_tree_branch_distance: 1_000_000,
        support_tree_bp_diameter: 7_500_000,
        support_tree_tip_diameter: 400_000,
        support_tree_max_diameter_increase_by_merges_when_support_to_model: 1_000_000,
        support_tree_min_height_to_model: 1_000_000,
    }
}

fn area(z: f64, layer_index: usize, boundary: Vec<Point2D>) -> OverhangArea<f64> {
    OverhangArea { z, layer_index, boundary, area: 0.0 }
}

#[test]
fn test_support_node_creation() {
    let node = SupportNode::new_contact(1, Point2D::new(100, 200), 0.5, 5, 200_000);
    assert_eq!(node.id, 1);
    assert_eq!(node.layer_index, 5);
    assert_eq!(node.distance_to_top, 0);
    assert!(node.to_buildplate);
}

#[test]
fn test_node_type_default() {
    assert_eq!(NodeType::default(), NodeType::Circle);
}

#[test]
fn test_smooth_branch_short() {
    let mut branch = Branch {
        nodes: vec![
            SupportNode::new_contact(0, Point2D::new(0, 0), 0.0, 0, 100),
            SupportNode::new_contact(1, Point2D::new(100, 100), 0.0, 0, 100),
        ],
        reaches_buildplate: false,
    };
    // Should not crash on branch with < 3 nodes.
    smooth_branch(&mut branch);
    assert_eq!(branch.nodes.len(), 2);
}

#[test]
fn test_smooth_branch() {
    let mut branch = Branch {
        nodes: vec![
            SupportNode::new_contact(0, Point2D::new(0, 0), 0.0, 0, 100),
            SupportNode::new_contact(1, Point2D::new(300, 0), 0.0, 0, 100),
            SupportNode::new_contact(2, Point2D::new(0, 0), 0.0, 0, 100),
        ],
        reaches_buildplate: false,
    };
    smooth_branch(&mut branch);
    // Middle node should be smoothed toward average.
    assert_eq!(branch.nodes[1].position.x, 100); // (0+300+0)/3
}

#[test]
fn new_contact_sets_every_field() {
    let node = SupportNode::new_contact(7, Point2D::new(-3, 4), 1.25, 9, 150_000);
    assert_eq!(node.position, Point2D::new(-3, 4));
    assert_eq!(node.z, 1.25);
    assert_eq!(node.dist_mm_to_top, 0.0);
    assert_eq!(node.radius, 150_000);
    assert_eq!(node.max_move_distance, 0);
    assert_eq!(node.node_type, NodeType::Circle);
    assert!(!node.is_sharp_tail);
    assert!(!node.need_extra_wall);
    assert_eq!(node.support_roof_layers_below, 0);
    assert_eq!(node.parent_index, None);
    let copy = node.clone();
    assert_eq!(copy.id, 7);
}

#[test]
fn smoothing_keeps_endpoints_and_rounds_toward_zero() {
    let mut branch = Branch {
        nodes: vec![
            SupportNode::new_contact(0, Point2D::new(-10, 5), 0.0, 3, 100),
            SupportNode::new_contact(1, Point2D::new(0, 0), 0.0, 2, 100),
            SupportNode::new_contact(2, Point2D::new(-1, 7), 0.0, 1, 100),
            SupportNode::new_contact(3, Point2D::new(20, -9), 0.0, 0, 100),
        ],
        reaches_buildplate: true,
    };
    smooth_branch(&mut branch);
    assert_eq!(branch.nodes[0].position, Point2D::new(-10, 5));
    // (-10 + 0 - 1) / 3 = -3 (toward zero), (5 + 0 + 7) / 3 = 4
    assert_eq!(branch.nodes[1].position, Point2D::new(-3, 4));
    // (0 - 1 + 20) / 3 = 6, (0 + 7 - 9) / 3 = 0
    assert_eq!(branch.nodes[2].position, Point2D::new(6, 0));
    assert_eq!(branch.nodes[3].position, Point2D::new(20, -9));
    assert_eq!(branch.nodes[1].layer_index, 2);
    assert!(branch.reaches_buildplate);
}

#[test]
fn smoothing_a_branch_at_one_point_changes_nothing() {
    let p = Point2D::new(1_234_567, -7_654_321);
    let mut branch = Branch {
        nodes: (0..5).map(|i| SupportNode::new_contact(i, p, 0.0, 0, 100)).collect(),
        reaches_buildplate: false,
    };
    smooth_branch(&mut branch);
    assert!(branch.nodes.iter().all(|n| n.position == p));
}

#[test]
fn contact_points_respect_branch_distance_per_layer() {
    let cfg = scaled_config();
    let settings = ScaledDerivedSettings::from_config(&cfg);
    let overhangs = OverhangResult {
        layers: vec![
            vec![area(
                0.1,
                0,
                vec![Point2D::new(0, 0), Point2D::new(500_000, 0), Point2D::new(1_000_000, 0)],
            )],
            vec![
                area(0.3, 1, vec![Point2D::new(0, 0)]),
                area(0.3, 1, vec![Point2D::new(600_000, 800_000), Point2D::new(2_000_000, 0)]),
            ],
        ],
        total_regions: 3,
    };
    let heights = vec![0.1, 0.3];
    let nodes = generate_contact_points(&overhangs, &cfg, &settings, &heights);
    let placed: Vec<(usize, Point2D)> = nodes.iter().map(|n| (n.layer_index, n.position)).collect();
    // (500000, 0) is closer than 1 mm to (0, 0); (1000000, 0) is exactly 1 mm away.
    // (600000, 800000) is exactly 1 mm from (0, 0), so it is kept.
    assert_eq!(
        placed,
        vec![
            (0, Point2D::new(0, 0)),
            (0, Point2D::new(1_000_000, 0)),
            (1, Point2D::new(0, 0)),
            (1, Point2D::new(600_000, 800_000)),
            (1, Point2D::new(2_000_000, 0)),
        ]
    );
    let ids: Vec<u64> = nodes.iter().map(|n| n.id).collect();
    assert_eq!(ids, vec![0, 1, 2, 3, 4]);
    assert!(nodes.iter().all(|n| n.radius == 200_000));
    assert_eq!(nodes[3].z, 0.3);
}

#[test]
fn contact_points_stop_at_the_last_layer_height() {
    let cfg = scaled_config();
    let settings = ScaledDerivedSettings::from_config(&cfg);
    let overhangs = OverhangResult {
        layers: vec![
            vec![area(0.1, 0, vec![Point2D::new(0, 0)])],
            vec![area(0.3, 1, vec![Point2D::new(5, 5)])],
        ],
        total_regions: 2,
    };
    let nodes = generate_contact_points(&overhangs, &cfg, &settings, &[0.1]);
    assert_eq!(nodes.len(), 1);
    assert_eq!(nodes[0].layer_index, 0);
}

#[test]
fn contact_points_with_zero_distance_keep_every_point() {
    let mut cfg = scaled_config();
    cfg.support_tree_branch_distance = 0;
    let settings = ScaledDerivedSettings::from_config(&cfg);
    let overhangs = OverhangResult {
        layers: vec![vec![area(0.1, 0, vec![Point2D::new(0, 0), Point2D::new(0, 0)])]],
        total_regions: 1,
    };
    let nodes = generate_contact_points(&overhangs, &cfg, &settings, &[0.1]);
    assert_eq!(nodes.len(), 2);
}

#[test]
fn node_count_adds_branch_lengths() {
    let branches = vec![
        Branch {
            nodes: vec![
                SupportNode::new_contact(0, Point2D::new(0, 0), 0.0, 1, 100),
                SupportNode::new_contact(0, Point2D::new(0, 0), 0.0, 0, 100),
            ],
            reaches_buildplate: true,
        },
        Branch { nodes: vec![], reaches_buildplate: false },
        Branch {
            nodes: vec![SupportNode::new_contact(1, Point2D::new(3, 3), 0.0, 0, 100)],
            reaches_buildplate: true,
        },
    ];
    assert_eq!(count_nodes(&branches), 3);
    assert_eq!(count_nodes::<f64>(&vec![]), 0);
}

fn step(x: i64, z: f64, dist: f64, radius: i64, max_move: i64) -> DropStep<f64> {
    DropStep { position: Point2D::new(x, -x), z, dist_mm_to_top: dist, radius, max_move_distance: max_move }
}

#[test]
fn built_branch_drops_one_node_per_layer_to_the_plate() {
    let mut contact = SupportNode::new_contact(7, Point2D::new(50, 60), 0.6, 3, 200_000);
    contact.is_sharp_tail = true;
    let steps = vec![
        step(40, 0.4, 0.2, 210_000, 30),
        step(30, 0.2, 0.4, 220_000, 31),
        step(20, 0.0, 0.6, 230_000, 32),
    ];
    let b = build_branch(&contact, &steps);
    assert!(b.reaches_buildplate);
    assert_eq!(b.nodes.len(), 4);
    assert_eq!(b.nodes[0].id, 7);
    assert_eq!(b.nodes[0].position, Point2D::new(50, 60));
    assert!(b.nodes[0].is_sharp_tail);
    assert_eq!(b.nodes[0].parent_index, None);
    for i in 1..4 {
        let n = &b.nodes[i];
        let s = &steps[i - 1];
        assert_eq!(n.id, 0);
        assert_eq!(n.layer_index, 3 - i);
        assert_eq!(n.distance_to_top, i as u32);
        assert_eq!(n.parent_index, Some(i - 1));
        assert_eq!(n.position, s.position);
        assert_eq!(n.z, s.z);
        assert_eq!(n.dist_mm_to_top, s.dist_mm_to_top);
        assert_eq!(n.radius, s.radius);
        assert_eq!(n.max_move_distance, s.max_move_distance);
        assert_eq!(n.node_type, NodeType::Circle);
        assert!(n.to_buildplate && !n.is_sharp_tail && !n.need_extra_wall);
        assert_eq!(n.support_roof_layers_below, 0);
    }
    assert_eq!(b.nodes[3].layer_index, 0);
}

#[test]
fn contact_on_the_plate_is_a_branch_by_itself() {
    let contact = SupportNode::new_contact(2, Point2D::new(5, 5), 0.0, 0, 100);
    let b = build_branch(&contact, &vec![]);
    assert_eq!(b.nodes.len(), 1);
    assert!(b.reaches_buildplate);
    assert_eq!(b.nodes[0].id, 2);
}

#[test]
fn child_indices_push_len_and_get() {
    let mut node = SupportNode::new_contact(0, Point2D::new(0, 0), 0.0, 0, 1);
    assert_eq!(node.child_indices.len(), 0);
    assert_eq!(node.child_indices.get(0), None);
    node.child_indices.push(4);
    node.child_indices.push(9);
    node.child_indices.push(2);
    assert_eq!(node.child_indices.len(), 3);
    assert_eq!(node.child_indices.get(0), Some(4));
    assert_eq!(node.child_indices.get(2), Some(2));
    assert_eq!(node.child_indices.get(3), None);
    let copy = node.child_indices.clone();
    assert_eq!(copy.get(1), Some(9));
}
