//! Flat layouts of polygon data for the C boundary.

use vstd::prelude::*;

use crate::utils::Point2D;

verus! {

/// The points of all polygons, polygon after polygon.
pub open spec fn flattened_points(polygons: Seq<Vec<Point2D>>) -> Seq<Point2D>
    decreases polygons.len(),
{
    if polygons.len() == 0 {
        Seq::empty()
    } else {
        flattened_points(polygons.drop_last()) + polygons.last()@
    }
}

/// The sum of a sequence of sizes.
pub open spec fn size_total(sizes: Seq<u32>) -> nat
    decreases sizes.len(),
{
    if sizes.len() == 0 {
        0
    } else {
        size_total(sizes.drop_last()) + sizes.last() as nat
    }
}

/// Flatten polygons into one point array and an array of polygon sizes.
///
/// The points come polygon after polygon; size `i` is the number of points of
/// polygon `i` as a `u32` (truncated, as `as u32` does).
pub fn flatten_polygons(polygons: &Vec<Vec<Point2D>>) -> (r: (Vec<Point2D>, Vec<u32>))
    ensures
        r.0@ == flattened_points(polygons@),
        r.1@.len() == polygons@.len(),
        forall|i: int| 0 <= i < polygons@.len() ==> r.1@[i] == (#[trigger] polygons@[i])@.len() as u32,
{
    let mut all_points: Vec<Point2D> = Vec::new();
    let mut polygon_sizes: Vec<u32> = Vec::new();
    let mut i: usize = 0;
    while i < polygons.len()
        invariant
            0 <= i <= polygons@.len(),
            all_points@ == flattened_points(polygons@.take(i as int)),
            polygon_sizes@.len() == i,
            forall|j: int| 0 <= j < i ==> polygon_sizes@[j] == (#[trigger] polygons@[j])@.len() as u32,
        decreases polygons@.len() - i,
    {
        let polygon = &polygons[i];
        polygon_sizes.push(#[verifier::truncate] (polygon.len() as u32));
        let ghost start = all_points@;
        let mut p: usize = 0;
        while p < polygon.len()
            invariant
                0 <= p <= polygon@.len(),
                all_points@ == start + polygon@.take(p as int),
            decreases polygon@.len() - p,
        {
            all_points.push(polygon[p]);
            assert(start + polygon@.take(p + 1) =~= all_points@);
            p = p + 1;
        }
        proof {
            assert(polygon@.take(polygon@.len() as int) =~= polygon@);
            assert(polygons@.take(i + 1).drop_last() =~= polygons@.take(i as int));
        }
        i = i + 1;
    }
    assert(polygons@.take(polygons@.len() as int) =~= polygons@);
    (all_points, polygon_sizes)
}

/// When no polygon has more than `u32::MAX` points, the sizes add up to the
/// number of flattened points: the point count handed over the C boundary
/// agrees with its polygon sizes.
pub proof fn lemma_sizes_count_points(polygons: Seq<Vec<Point2D>>, sizes: Seq<u32>)
    requires
        sizes.len() == polygons.len(),
        forall|i: int| 0 <= i < polygons.len() ==> sizes[i] == (#[trigger] polygons[i])@.len() as u32,
        forall|i: int| 0 <= i < polygons.len() ==> (#[trigger] polygons[i])@.len() <= u32::MAX,
    ensures
        size_total(sizes) == flattened_points(polygons).len(),
    decreases polygons.len(),
{
    if polygons.len() > 0 {
        let n = polygons.len() - 1;
        assert(sizes[n] == polygons[n]@.len() as u32);
        lemma_sizes_count_points(polygons.drop_last(), sizes.drop_last());
    }
}

} // verus!
