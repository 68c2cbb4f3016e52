use orca_tree_supports::branch_generation::{Branch, SupportNode};
use orca_tree_supports::config::{InterfacePreference, ScaledSupportConfig};
use orca_tree_supports::interface_layers::{
    generate_circle_polygon, generate_interface_layers, resolve_interface_overlap, InterfaceLayer,
    InterfaceResult,
};
use orca_tree_supports::utils::Point2D;

fn scaled_config() -> ScaledSupportConfig {
    ScaledSupportConfig {
        layer_height: 150_000,
        support_bottom_enable: false,
        support_bottom_height: 1_000_000,
        support_xy_distance: 700_000,
        support_xy_distance_overhang: 200_000,
        support_top_distance: 100_000,
        support_bottom_distance: 100_000,
        support_roof_enable: false,
        support_roof_layers: 2,
        support_floor_enable: false,
        support_floor_layers: 2,
        support_tree_branch_diameter: 2_000_000,
        support_tree_branch_distance: 1_000_000,
        support_tree_bp_diameter: 7_500_000,
        support_tree_tip_diameter: 400_000,
        support_tree_max_diameter_increase_by_merges_when_support_to_model: 1_000_000,
        support_tree_min_height_to_model: 1_000_000,
    }
}

fn branch(layers: &[usize]) -> Branch<f64> {
    Branch {
        nodes: layers
            .iter()
            .map(|&l| SupportNode::new_contact(0, Point2D::new(l as i64 * 1_000, 5), 0.0, l, 1_000))
            .collect(),
        reaches_buildplate: true,
    }
}

fn circle_at_layer(l: usize) -> Vec<Point2D> {
    generate_circle_polygon(&Point2D::new(l as i64 * 1_000, 5), 1_000, 16)
}

fn shape(tag: i64) -> Vec<Point2D> {
    vec![Point2D::new(tag, tag)]
}

fn heights() -> Vec<f64> {
    (0..10).map(|i| i as f64 * 0.2).collect()
}

#[test]
fn no_roof_no_floor_by_default() {
    let branches = vec![branch(&[5])];
    let result = generate_interface_layers(
        &branches,
        &scaled_config(),
        &heights(),
        &[0.0, 1.0],
    );
    assert!(result.roof_layers.is_empty());
    assert!(result.floor_layers.is_empty());
}

#[test]
fn roof_layers_sit_below_the_contact_sorted_by_layer() {
    let mut cfg = scaled_config();
    cfg.support_roof_enable = true;
    cfg.support_roof_layers = 2;
    let branches = vec![branch(&[5])];
    let hs = heights();
    let result = generate_interface_layers(&branches, &cfg, &hs, &[10.0, 20.0]);
    let idx: Vec<usize> = result.roof_layers.iter().map(|l| l.layer_index).collect();
    assert_eq!(idx, vec![3, 4]);
    assert_eq!(result.roof_layers[0].fill_angle, 20.0); // step 1 lies at layer 3
    assert_eq!(result.roof_layers[1].fill_angle, 10.0);
    assert_eq!(result.roof_layers[0].z, hs[3]);
    assert!(result.roof_layers.iter().all(|l| l.is_roof && l.polygons == vec![circle_at_layer(5)]));
    assert!(result.floor_layers.is_empty());
}

#[test]
fn roof_steps_below_layer_zero_stay_at_zero() {
    let mut cfg = scaled_config();
    cfg.support_roof_enable = true;
    cfg.support_roof_layers = 3;
    let branches = vec![branch(&[1])];
    let result = generate_interface_layers(&branches, &cfg, &heights(), &[0.0, 1.0, 2.0]);
    let idx: Vec<(usize, f64)> = result.roof_layers.iter().map(|l| (l.layer_index, l.fill_angle)).collect();
    assert_eq!(idx, vec![(0, 0.0), (0, 1.0), (0, 2.0)]);
}

#[test]
fn floor_layers_rise_from_the_base_and_stop_at_the_top() {
    let mut cfg = scaled_config();
    cfg.support_floor_enable = true;
    cfg.support_floor_layers = 3;
    let branches = vec![branch(&[9, 8]), branch(&[]), branch(&[4, 3, 2])];
    let result = generate_interface_layers(&branches, &cfg, &heights(), &[0.5, 1.5, 2.5]);
    let got: Vec<(usize, f64)> =
        result.floor_layers.iter().map(|l| (l.layer_index, l.fill_angle)).collect();
    // branch 0 base at 8: layers 8, 9 (10 has no height); branch 2 base at 2: 2, 3, 4.
    assert_eq!(got, vec![(2, 0.5), (3, 1.5), (4, 2.5), (8, 0.5), (9, 1.5)]);
    assert_eq!(result.floor_layers[0].polygons, vec![circle_at_layer(2)]);
    assert_eq!(result.floor_layers[4].polygons, vec![circle_at_layer(8)]);
    assert!(result.floor_layers.iter().all(|l| !l.is_roof));
    assert!(result.roof_layers.is_empty());
}

#[test]
fn equal_layers_keep_generation_order() {
    let mut cfg = scaled_config();
    cfg.support_roof_enable = true;
    cfg.support_roof_layers = 1;
    let moved = Branch {
        nodes: vec![SupportNode::new_contact(0, Point2D::new(-50_000, 5), 0.0, 4, 1_000)],
        reaches_buildplate: true,
    };
    let branches = vec![branch(&[6]), branch(&[4]), moved];
    let result = generate_interface_layers(&branches, &cfg, &heights(), &[0.0]);
    let got: Vec<(usize, i64)> =
        result.roof_layers.iter().map(|l| (l.layer_index, l.polygons[0][0].x)).collect();
    // the circle's first point is its center moved right by the radius
    assert_eq!(got, vec![(3, 5_000), (3, -49_000), (5, 7_000)]);
}

#[test]
fn empty_branches() {
    let branches: Vec<Branch<f64>> = Vec::new();
    let mut cfg = scaled_config();
    cfg.support_roof_enable = true;
    cfg.support_floor_enable = true;
    let result = generate_interface_layers(&branches, &cfg, &heights(), &[0.0, 1.0]);
    assert!(result.roof_layers.is_empty());
    assert!(result.floor_layers.is_empty());
}

#[test]
fn overlap_resolution_leaves_interface_unchanged() {
    let layer = InterfaceLayer { z: 0.2, layer_index: 1, is_roof: true, polygons: vec![shape(3)], fill_angle: 0.7 };
    let mut interface = InterfaceResult { roof_layers: vec![layer.clone()], floor_layers: vec![] };
    for pref in [
        InterfacePreference::InterfaceAreaOverwritesSupport,
        InterfacePreference::SupportAreaOverwritesInterface,
        InterfacePreference::InterfaceLinesOverwriteSupport,
        InterfacePreference::SupportLinesOverwriteInterface,
        InterfacePreference::Nothing,
    ] {
        resolve_interface_overlap(&mut interface, pref);
        assert_eq!(interface.roof_layers.len(), 1);
        assert_eq!(interface.roof_layers[0].polygons, layer.polygons);
        assert!(interface.floor_layers.is_empty());
    }
}

#[test]
fn test_generate_circle_polygon() {
    let center = Point2D::new(0, 0);
    let polygon = generate_circle_polygon(&center, 1_000_000, 16);
    assert_eq!(polygon.len(), 16);
    // All points should be approximately 1mm from center.
    for p in &polygon {
        let dx = (p.x - center.x) as f64;
        let dy = (p.y - center.y) as f64;
        let dist = (dx * dx + dy * dy).sqrt();
        assert!((dist - 1_000_000.0).abs() < 100.0);
    }
}

#[test]
fn branches_without_a_layer_in_range_draw_nothing() {
    // A floor anchored above the last layer has no step with a height, so its
    // radius, too large to draw, is never used.
    let high = Branch {
        nodes: vec![SupportNode::new_contact(0, Point2D::new(0, 0), 0.0, 20, i64::MAX)],
        reaches_buildplate: false,
    };
    let mut config = scaled_config();
    config.support_floor_enable = true;
    config.support_floor_layers = 2;
    let result = generate_interface_layers(&[high, branch(&[8])], &config, &heights(), &[0.5, 1.5]);
    assert!(result.roof_layers.is_empty());
    let layers: Vec<usize> = result.floor_layers.iter().map(|l| l.layer_index).collect();
    assert_eq!(layers, vec![8, 9]);
    assert_eq!(result.floor_layers[0].polygons, vec![circle_at_layer(8)]);
}

fn make_test_branch() -> Branch<f64> {
    let contact = SupportNode::new_contact(0, Point2D::new(5_000_000, 5_000_000), 1.0, 5, 200_000);
    Branch { nodes: vec![contact], reaches_buildplate: true }
}

fn fill_angles(n: usize) -> Vec<f64> {
    (0..n)
        .map(|i| std::f64::consts::PI / 4.0 + (i as f64) * std::f64::consts::PI / 6.0)
        .collect()
}

#[test]
fn test_generate_interface_no_roof_no_floor() {
    let branches = vec![make_test_branch()];
    let config = scaled_config(); // roof/floor disabled by default
    let layer_heights: Vec<f64> = (0..10).map(|i| i as f64 * 0.2).collect();
    let result = generate_interface_layers(&branches, &config, &layer_heights, &fill_angles(2));
    assert!(result.roof_layers.is_empty());
    assert!(result.floor_layers.is_empty());
}

#[test]
fn test_generate_interface_with_roof() {
    let branches = vec![make_test_branch()];
    let mut config = scaled_config();
    config.support_roof_enable = true;
    config.support_roof_layers = 2;
    let layer_heights: Vec<f64> = (0..10).map(|i| i as f64 * 0.2).collect();
    let result = generate_interface_layers(&branches, &config, &layer_heights, &fill_angles(2));
    assert!(!result.roof_layers.is_empty());
    assert!(result.roof_layers.len() <= 2);
}

#[test]
fn test_generate_interface_with_floor() {
    let branches = vec![make_test_branch()];
    let mut config = scaled_config();
    config.support_floor_enable = true;
    config.support_floor_layers = 2;
    let layer_heights: Vec<f64> = (0..10).map(|i| i as f64 * 0.2).collect();
    let result = generate_interface_layers(&branches, &config, &layer_heights, &fill_angles(2));
    assert!(!result.floor_layers.is_empty());
}

#[test]
fn test_empty_branches() {
    let branches: Vec<Branch<f64>> = Vec::new();
    let config = scaled_config();
    let layer_heights: Vec<f64> = (0..10).map(|i| i as f64 * 0.2).collect();
    let result = generate_interface_layers(&branches, &config, &layer_heights, &fill_angles(2));
    assert!(result.roof_layers.is_empty());
    assert!(result.floor_layers.is_empty());
}

#[test]
fn negative_counts_without_anchors_give_nothing() {
    let mut config = scaled_config();
    config.support_roof_enable = true;
    config.support_roof_layers = -3;
    config.support_floor_enable = true;
    config.support_floor_layers = i32::MIN;
    // no branch has nodes
    let empty = Branch { nodes: vec![], reaches_buildplate: false };
    let result = generate_interface_layers(&[empty], &config, &heights(), &[]);
    assert!(result.roof_layers.is_empty() && result.floor_layers.is_empty());
    // no layer heights
    let result = generate_interface_layers(&[branch(&[5])], &config, &[], &[]);
    assert!(result.roof_layers.is_empty() && result.floor_layers.is_empty());
}

#[test]
fn floor_needs_angles_only_for_steps_with_heights() {
    let mut config = scaled_config();
    config.support_floor_enable = true;
    config.support_floor_layers = i32::MAX;
    let hs = vec![0.0, 0.2, 0.4];
    let result = generate_interface_layers(&[branch(&[1])], &config, &hs, &[5.0, 6.0, 7.0]);
    let got: Vec<(usize, f64)> = result.floor_layers.iter().map(|l| (l.layer_index, l.fill_angle)).collect();
    assert_eq!(got, vec![(1, 5.0), (2, 6.0)]);
}

#[test]
fn huge_anchor_radius_is_drawn() {
    let r = 1i64 << 50;
    let b = Branch {
        nodes: vec![SupportNode::new_contact(0, Point2D::new(0, 0), 0.0, 3, r)],
        reaches_buildplate: false,
    };
    let mut config = scaled_config();
    config.support_roof_enable = true;
    config.support_roof_layers = 1;
    let result = generate_interface_layers(&[b], &config, &heights(), &[0.0]);
    assert_eq!(result.roof_layers.len(), 1);
    assert_eq!(result.roof_layers[0].layer_index, 2);
    assert_eq!(result.roof_layers[0].polygons, vec![generate_circle_polygon(&Point2D::new(0, 0), r, 16)]);
    assert_eq!(result.roof_layers[0].polygons[0][4], Point2D::new(0, r));
}
