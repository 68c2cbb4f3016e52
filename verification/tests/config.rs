use orca_tree_supports::config::{
    validate, InterfacePreference, ScaledDerivedSettings, ScaledSupportConfig, SupportInterfacePattern,
    SupportPattern,
};
use orca_tree_supports::utils::TreeSupportError;

fn scaled_config() -> ScaledSupportConfig {
    ScaledSupportConfig {
        layer_height: 150_000,
        support_bottom_enable: false,
        support_bottom_height: 1_000_000,
        support_xy_distance: 700_000,
        support_xy_distance_overhang: 200_000,
        support_top_distance: 100_000,
        support_bottom_distance: 100_000,
        support_roof_enable: false,
        support_roof_layers: 2,
        support_floor_enable: false,
        support_floor_layers: 2,
        support_tree_branch_diameter: 2_000_000,
        support_tree_branch_distance: 1_000_000,
        support_tree_bp_diameter: 7_500_000,
        support_tree_tip_diameter: 400_000,
        support_tree_max_diameter_increase_by_merges_when_support_to_model: 1_000_000,
        support_tree_min_height_to_model: 1_000_000,
    }
}

fn config_message(r: Result<(), TreeSupportError>) -> String {
    match r {
        Err(TreeSupportError::InvalidConfig(m)) => m,
        other => panic!("expected an invalid-config error, got {:?}", other),
    }
}

/// The two floating-point range checks of the default configuration: a 60°
/// tree angle and a 15 % tip density.
fn default_float_checks(tree_angle: f64) -> (bool, bool) {
    let top_rate = 15.0;
    (
        !(tree_angle <= 0.0 || tree_angle >= std::f64::consts::PI / 2.0),
        !(top_rate < 0.0 || top_rate > 100.0),
    )
}

#[test]
fn test_default_config_is_valid() {
    let (angle_ok, rate_ok) = default_float_checks(60.0 * std::f64::consts::PI / 180.0);
    assert!(validate(&scaled_config(), angle_ok, rate_ok).is_ok());
}

#[test]
fn test_derived_settings_branch_radius() {
    let cfg = scaled_config();
    let derived = ScaledDerivedSettings::from_config(&cfg);
    assert_eq!(derived.branch_radius, cfg.support_tree_branch_diameter / 2);
    assert_eq!(derived.min_radius, cfg.support_tree_tip_diameter / 2);
}

#[test]
fn test_invalid_config_zero_layer_height() {
    let mut cfg = scaled_config();
    cfg.layer_height = 0;
    let (angle_ok, rate_ok) = default_float_checks(60.0 * std::f64::consts::PI / 180.0);
    assert!(validate(&cfg, angle_ok, rate_ok).is_err());
}

#[test]
fn test_invalid_config_bad_angle() {
    // 180° is invalid
    let (angle_ok, rate_ok) = default_float_checks(std::f64::consts::PI);
    assert!(validate(&scaled_config(), angle_ok, rate_ok).is_err());
}

#[test]
fn zero_layer_height_is_rejected_first() {
    let mut cfg = scaled_config();
    cfg.layer_height = 0;
    cfg.support_tree_branch_diameter = 0;
    assert_eq!(config_message(validate(&cfg, false, false)), "layer_height must be positive");
}

#[test]
fn bad_tree_angle_is_rejected_before_the_diameter() {
    let mut cfg = scaled_config();
    cfg.support_tree_branch_diameter = -5;
    assert_eq!(
        config_message(validate(&cfg, false, true)),
        "support_tree_angle must be in (0, \u{3c0}/2)"
    );
}

#[test]
fn non_positive_branch_diameter_is_rejected() {
    let mut cfg = scaled_config();
    cfg.support_tree_branch_diameter = 0;
    assert_eq!(
        config_message(validate(&cfg, true, false)),
        "support_tree_branch_diameter must be positive"
    );
}

#[test]
fn bad_top_rate_is_rejected_last() {
    assert_eq!(
        config_message(validate(&scaled_config(), true, false)),
        "support_tree_top_rate must be in [0, 100]"
    );
}

#[test]
fn derived_settings_of_the_default_configuration() {
    let cfg = scaled_config();
    let d = ScaledDerivedSettings::from_config(&cfg);
    assert_eq!(d.branch_radius, cfg.support_tree_branch_diameter / 2);
    assert_eq!(d.min_radius, cfg.support_tree_tip_diameter / 2);
    assert_eq!(d.branch_radius, 1_000_000);
    assert_eq!(d.min_radius, 200_000);
    assert_eq!(d.bp_radius, 3_750_000);
    assert_eq!(d.support_bottom_layers, 0);
    // ceil(100000 / 150000) = 1, ceil(1000000 / 150000) = 7
    assert_eq!(d.z_distance_top_layers, 1);
    assert_eq!(d.z_distance_bottom_layers, 1);
    assert_eq!(d.min_dtt_to_model, 7);
    assert_eq!(d.increase_radius_until_radius, 2_000_000);
    assert_eq!(d.xy_distance, 700_000);
    assert_eq!(d.xy_min_distance, 200_000);
    assert_eq!(d.max_to_model_radius_increase, 1_000_000);
    assert_eq!(d.layer_start_bp_radius, 0);
}

#[test]
fn layer_counts_round_up_and_vanish_without_height() {
    let mut cfg = scaled_config();
    cfg.support_bottom_enable = true;
    cfg.support_bottom_height = 300_000; // exactly two layers
    cfg.support_top_distance = 300_001; // a little over two layers
    cfg.support_bottom_distance = -40; // negative distances need no layers
    let d = ScaledDerivedSettings::from_config(&cfg);
    assert_eq!(d.support_bottom_layers, 2);
    assert_eq!(d.z_distance_top_layers, 3);
    assert_eq!(d.z_distance_bottom_layers, 0);
    cfg.layer_height = 0;
    let d = ScaledDerivedSettings::from_config(&cfg);
    assert_eq!(d.support_bottom_layers, 0);
    assert_eq!(d.z_distance_top_layers, 0);
    assert_eq!(d.min_dtt_to_model, 0);
}

#[test]
fn odd_negative_diameters_halve_toward_zero() {
    let mut cfg = scaled_config();
    cfg.support_tree_branch_diameter = -5;
    cfg.support_tree_tip_diameter = 5;
    let d = ScaledDerivedSettings::from_config(&cfg);
    assert_eq!(d.branch_radius, -2);
    assert_eq!(d.min_radius, 2);
}

#[test]
fn enums_compare_by_variant() {
    assert_ne!(InterfacePreference::Nothing, InterfacePreference::InterfaceAreaOverwritesSupport);
    assert_eq!(SupportPattern::Lightning, SupportPattern::Lightning);
    assert_ne!(SupportInterfacePattern::Auto, SupportInterfacePattern::Grid);
}
