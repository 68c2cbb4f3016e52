//! Configuration enums and the integer (scaled) part of the support settings.

use vstd::prelude::*;

use crate::utils::{CoordT, Result, TreeSupportError};

verus! {

/// How interface areas interact with support areas.
#[derive(Debug, Clone, Copy, PartialEq, Eq, Structural, Hash)]
pub enum InterfacePreference {
    /// Interface areas overwrite support areas.
    InterfaceAreaOverwritesSupport,
    /// Support areas overwrite interface areas.
    SupportAreaOverwritesInterface,
    /// Interface lines overwrite support areas.
    InterfaceLinesOverwriteSupport,
    /// Support lines overwrite interface areas.
    SupportLinesOverwriteInterface,
    /// No preference.
    Nothing,
}

/// Type of support pattern.
#[derive(Debug, Clone, Copy, PartialEq, Eq, Structural, Hash)]
pub enum SupportPattern {
    /// Rectilinear infill pattern.
    Rectilinear,
    /// Grid infill pattern.
    Grid,
    /// Honeycomb infill pattern.
    Honeycomb,
    /// Lightning infill pattern (tree-optimized).
    Lightning,
}

/// Type of support roof/interface pattern.
#[derive(Debug, Clone, Copy, PartialEq, Eq, Structural, Hash)]
pub enum SupportInterfacePattern {
    /// Automatic selection.
    Auto,
    /// Rectilinear pattern.
    Rectilinear,
    /// Concentric pattern.
    Concentric,
    /// Grid pattern.
    Grid,
}

/// Rust's integer division by two, which rounds toward zero.
pub open spec fn half_toward_zero(d: int) -> int {
    if d >= 0 { d / 2 } else { -((-d) / 2) }
}

/// Number of whole layers of height `layer_height` needed to cover `distance`
/// (the ceiling of their ratio, never negative), or 0 without a positive height.
pub open spec fn layers_to_cover(distance: int, layer_height: int) -> int {
    if layer_height <= 0 || distance <= 0 {
        0
    } else {
        (distance + layer_height - 1) / layer_height
    }
}

/// `layers_to_cover` as a `usize`, saturated at `usize::MAX`.
pub open spec fn layers_to_cover_usize(distance: int, layer_height: int) -> usize {
    if layers_to_cover(distance, layer_height) > usize::MAX {
        usize::MAX
    } else {
        layers_to_cover(distance, layer_height) as usize
    }
}

fn halve(d: CoordT) -> (r: CoordT)
    ensures
        r == half_toward_zero(d as int),
{
    d / 2
}

/// Number of layers needed to cover `distance` at `layer_height` per layer.
fn layer_count_for(distance: CoordT, layer_height: CoordT) -> (r: usize)
    ensures
        r == layers_to_cover_usize(distance as int, layer_height as int),
{
    if layer_height <= 0 || distance <= 0 {
        0
    } else {
        let q: i64 = (distance - 1) / layer_height + 1;
        assert(q as int == (distance as int + layer_height as int - 1) / (layer_height as int))
            by (nonlinear_arith)
            requires
                distance > 0,
                layer_height > 0,
                q as int == (distance as int - 1) / (layer_height as int) + 1,
        ;
        if q as u64 > usize::MAX as u64 {
            usize::MAX
        } else {
            q as usize
        }
    }
}

/// The scaled integer parameters of a tree support configuration that the
/// support logic reads: distances in scaled units, layer counts and switches.
#[derive(Debug, Clone, Copy, PartialEq, Eq, Structural)]
pub struct ScaledSupportConfig {
    /// Layer height in scaled coordinates.
    pub layer_height: CoordT,
    /// Whether support floor (bottom interface) is enabled.
    pub support_bottom_enable: bool,
    /// Height of support floor in scaled coordinates.
    pub support_bottom_height: CoordT,
    /// XY distance between support and model in scaled coordinates.
    pub support_xy_distance: CoordT,
    /// XY distance at overhang boundaries in scaled coordinates.
    pub support_xy_distance_overhang: CoordT,
    /// Top Z gap between model and support in scaled coordinates.
    pub support_top_distance: CoordT,
    /// Bottom Z gap between support and model/plate in scaled coordinates.
    pub support_bottom_distance: CoordT,
    /// Whether support roof is enabled.
    pub support_roof_enable: bool,
    /// Number of support roof layers.
    pub support_roof_layers: i32,
    /// Whether support floor is enabled.
    pub support_floor_enable: bool,
    /// Number of support floor layers.
    pub support_floor_layers: i32,
    /// Branch diameter at the base in scaled coordinates.
    pub support_tree_branch_diameter: CoordT,
    /// Distance between branch tips in scaled coordinates.
    pub support_tree_branch_distance: CoordT,
    /// Build plate contact diameter in scaled coordinates.
    pub support_tree_bp_diameter: CoordT,
    /// Tip diameter in scaled coordinates.
    pub support_tree_tip_diameter: CoordT,
    /// Maximum diameter increase by merges when support rests on model.
    pub support_tree_max_diameter_increase_by_merges_when_support_to_model: CoordT,
    /// Minimum height to model for tree support in scaled coordinates.
    pub support_tree_min_height_to_model: CoordT,
}

/// The support settings that follow from the scaled configuration by integer
/// arithmetic alone.
#[derive(Debug, Clone, Copy, PartialEq, Eq, Structural)]
pub struct ScaledDerivedSettings {
    /// Effective branch radius (half of `support_tree_branch_diameter`).
    pub branch_radius: CoordT,
    /// Minimum branch radius (half of `support_tree_tip_diameter`).
    pub min_radius: CoordT,
    /// Number of bottom/floor support layers.
    pub support_bottom_layers: usize,
    /// Maximum radius increase when support rests on model.
    pub max_to_model_radius_increase: CoordT,
    /// Minimum distance-to-top when resting on model.
    pub min_dtt_to_model: usize,
    /// Radius at which increase rate changes.
    pub increase_radius_until_radius: CoordT,
    /// XY distance for collision checking.
    pub xy_distance: CoordT,
    /// Build plate radius.
    pub bp_radius: CoordT,
    /// Layer at which build plate radius increase begins.
    pub layer_start_bp_radius: i64,
    /// Minimum XY distance (tighter than `xy_distance`).
    pub xy_min_distance: CoordT,
    /// Number of top gap layers.
    pub z_distance_top_layers: usize,
    /// Number of bottom gap layers.
    pub z_distance_bottom_layers: usize,
}

/// The derived settings that the scaled configuration determines.
pub open spec fn scaled_settings_of(c: ScaledSupportConfig) -> ScaledDerivedSettings {
    ScaledDerivedSettings {
        branch_radius: half_toward_zero(c.support_tree_branch_diameter as int) as CoordT,
        min_radius: half_toward_zero(c.support_tree_tip_diameter as int) as CoordT,
        support_bottom_layers: if c.support_bottom_enable {
            layers_to_cover_usize(c.support_bottom_height as int, c.layer_height as int)
        } else {
            0
        },
        max_to_model_radius_increase:
            c.support_tree_max_diameter_increase_by_merges_when_support_to_model,
        min_dtt_to_model: layers_to_cover_usize(
            c.support_tree_min_height_to_model as int,
            c.layer_height as int,
        ),
        increase_radius_until_radius: c.support_tree_branch_diameter,
        xy_distance: c.support_xy_distance,
        bp_radius: half_toward_zero(c.support_tree_bp_diameter as int) as CoordT,
        layer_start_bp_radius: 0,
        xy_min_distance: c.support_xy_distance_overhang,
        z_distance_top_layers: layers_to_cover_usize(
            c.support_top_distance as int,
            c.layer_height as int,
        ),
        z_distance_bottom_layers: layers_to_cover_usize(
            c.support_bottom_distance as int,
            c.layer_height as int,
        ),
    }
}

impl ScaledDerivedSettings {
    /// Compute the integer derived settings from a scaled configuration.
    pub fn from_config(config: &ScaledSupportConfig) -> (s: Self)
        ensures
            s == scaled_settings_of(*config),
    {
        let support_bottom_layers = if config.support_bottom_enable {
            layer_count_for(config.support_bottom_height, config.layer_height)
        } else {
            0
        };
        ScaledDerivedSettings {
            branch_radius: halve(config.support_tree_branch_diameter),
            min_radius: halve(config.support_tree_tip_diameter),
            support_bottom_layers,
            max_to_model_radius_increase:
                config.support_tree_max_diameter_increase_by_merges_when_support_to_model,
            min_dtt_to_model: layer_count_for(
                config.support_tree_min_height_to_model,
                config.layer_height,
            ),
            increase_radius_until_radius: config.support_tree_branch_diameter,
            xy_distance: config.support_xy_distance,
            bp_radius: halve(config.support_tree_bp_diameter),
            layer_start_bp_radius: 0,
            xy_min_distance: config.support_xy_distance_overhang,
            z_distance_top_layers: layer_count_for(config.support_top_distance, config.layer_height),
            z_distance_bottom_layers: layer_count_for(
                config.support_bottom_distance,
                config.layer_height,
            ),
        }
    }
}

/// Which check, if any, rejects a configuration; the checks run in this order.
pub enum ConfigProblem {
    /// `layer_height` is not positive.
    LayerHeight,
    /// The tree angle is outside (0, π/2).
    TreeAngle,
    /// `support_tree_branch_diameter` is not positive.
    BranchDiameter,
    /// The tip density is outside [0, 100].
    TopRate,
}

/// The first check that rejects the configuration, if any.
pub open spec fn config_problem(
    c: ScaledSupportConfig,
    tree_angle_in_range: bool,
    top_rate_in_range: bool,
) -> Option<ConfigProblem> {
    if c.layer_height <= 0 {
        Some(ConfigProblem::LayerHeight)
    } else if !tree_angle_in_range {
        Some(ConfigProblem::TreeAngle)
    } else if c.support_tree_branch_diameter <= 0 {
        Some(ConfigProblem::BranchDiameter)
    } else if !top_rate_in_range {
        Some(ConfigProblem::TopRate)
    } else {
        None
    }
}

/// The message that reports a configuration problem.
pub open spec fn config_problem_message(p: ConfigProblem) -> Seq<char> {
    match p {
        ConfigProblem::LayerHeight => "layer_height must be positive"@,
        ConfigProblem::TreeAngle => "support_tree_angle must be in (0, \u{3c0}/2)"@,
        ConfigProblem::BranchDiameter => "support_tree_branch_diameter must be positive"@,
        ConfigProblem::TopRate => "support_tree_top_rate must be in [0, 100]"@,
    }
}

/// Validate configuration parameters.
///
/// `tree_angle_in_range` tells whether the tree angle lies strictly between 0
/// and a right angle, and `top_rate_in_range` whether the tip density lies in
/// [0, 100]; the remaining checks read the scaled configuration. The checks
/// run in the order layer height, tree angle, branch diameter, tip density,
/// and the first failing one is reported.
pub fn validate(
    config: &ScaledSupportConfig,
    tree_angle_in_range: bool,
    top_rate_in_range: bool,
) -> (r: Result<()>)
    ensures
        r is Ok <==> config_problem(*config, tree_angle_in_range, top_rate_in_range) is None,
        r matches Err(e) ==> (e matches TreeSupportError::InvalidConfig(msg) && msg@
            == config_problem_message(
            config_problem(*config, tree_angle_in_range, top_rate_in_range)->0,
        )),
{
    if config.layer_height <= 0 {
        return Err(TreeSupportError::InvalidConfig("layer_height must be positive".to_owned()));
    }
    if !tree_angle_in_range {
        return Err(
            TreeSupportError::InvalidConfig("support_tree_angle must be in (0, \u{3c0}/2)".to_owned()),
        );
    }
    if config.support_tree_branch_diameter <= 0 {
        return Err(
            TreeSupportError::InvalidConfig(
                "support_tree_branch_diameter must be positive".to_owned(),
            ),
        );
    }
    if !top_rate_in_range {
        return Err(
            TreeSupportError::InvalidConfig("support_tree_top_rate must be in [0, 100]".to_owned()),
        );
    }
    Ok(())
}

} // verus!
