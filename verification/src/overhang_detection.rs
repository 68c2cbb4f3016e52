//! Per-layer overhang regions.

use vstd::prelude::*;

use crate::utils::Point2D;

verus! {

/// A contiguous region requiring support at a given layer.
///
/// `S` is the scalar type of heights and areas; the support logic carries these
/// values without computing with them.
#[derive(Debug, Clone)]
pub struct OverhangArea<S> {
    /// Z height of this overhang layer.
    pub z: S,
    /// Layer index (0-based from bottom).
    pub layer_index: usize,
    /// Boundary points of the overhang region (scaled 2D coordinates).
    pub boundary: Vec<Point2D>,
    /// Area of the overhang region in scaled² units.
    pub area: S,
}

/// Result of overhang detection: per-layer overhang areas.
#[derive(Debug, Clone)]
pub struct OverhangResult<S> {
    /// Overhang areas grouped by layer, sorted by layer index.
    pub layers: Vec<Vec<OverhangArea<S>>>,
    /// Total number of overhang regions detected.
    pub total_regions: usize,
}

/// The number of regions over all layers.
pub open spec fn region_total<S>(layers: Seq<Vec<OverhangArea<S>>>) -> nat
    decreases layers.len(),
{
    if layers.len() == 0 {
        0
    } else {
        region_total(layers.drop_last()) + layers.last()@.len()
    }
}

/// Count the overhang regions over all layers.
pub fn count_regions<S>(layers: &Vec<Vec<OverhangArea<S>>>) -> (n: usize)
    requires
        region_total(layers@) <= usize::MAX,
    ensures
        n == region_total(layers@),
{
    let mut total: usize = 0;
    let mut i: usize = 0;
    while i < layers.len()
        invariant
            0 <= i <= layers@.len(),
            total == region_total(layers@.take(i as int)),
            region_total(layers@) <= usize::MAX,
        decreases layers@.len() - i,
    {
        proof {
            assert(layers@.take(i + 1).drop_last() =~= layers@.take(i as int));
            lemma_region_total_prefix(layers@, i + 1);
        }
        total = total + layers[i].len();
        i = i + 1;
    }
    assert(layers@.take(layers@.len() as int) =~= layers@);
    total
}

/// A prefix never counts more regions than the whole sequence.
proof fn lemma_region_total_prefix<S>(layers: Seq<Vec<OverhangArea<S>>>, k: int)
    requires
        0 <= k <= layers.len(),
    ensures
        region_total(layers.take(k)) <= region_total(layers),
    decreases layers.len(),
{
    if k < layers.len() {
        assert(layers.drop_last().take(k) =~= layers.take(k));
        lemma_region_total_prefix(layers.drop_last(), k);
    } else {
        assert(layers.take(k) =~= layers);
    }
}

} // verus!
