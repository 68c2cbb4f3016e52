//! Interface layers (support roof and floor) between support and model.

use vstd::prelude::*;

use crate::branch_generation::{Branch, SupportNode};
use crate::circle::{circle_drawable, circle_points, circle_seq};
use crate::config::{InterfacePreference, ScaledSupportConfig};
use crate::utils::{
    copy_polygon, entries_at, grouped_by_layer, lemma_grouped_by_layer_contains,
    lemma_grouped_by_layer_sorted, CoordT, Point2D,
};

verus! {

/// A single interface layer (roof or floor).
///
/// `S` is the scalar type of heights and fill angles.
#[derive(Debug, Clone)]
pub struct InterfaceLayer<S> {
    /// Z height of this interface layer.
    pub z: S,
    /// Layer index.
    pub layer_index: usize,
    /// Whether this is a roof (true) or floor (false) layer.
    pub is_roof: bool,
    /// Boundary polygons of the interface area.
    pub polygons: Vec<Vec<Point2D>>,
    /// Fill angle in radians for the interface pattern.
    pub fill_angle: S,
}

/// Result of interface layer generation.
#[derive(Debug, Clone)]
pub struct InterfaceResult<S> {
    /// Generated roof layers, sorted by layer index.
    pub roof_layers: Vec<InterfaceLayer<S>>,
    /// Generated floor layers, sorted by layer index.
    pub floor_layers: Vec<InterfaceLayer<S>>,
}

/// The layer of interface step `step` below or above the anchor layer: roof
/// layers go down from the contact layer (stopping at layer 0), floor layers
/// go up from the base layer.
pub open spec fn interface_layer_index(roof: bool, anchor: usize, step: int) -> int {
    if roof {
        if anchor >= step + 1 {
            anchor - (step + 1)
        } else {
            0
        }
    } else {
        anchor + step
    }
}

/// The interface entries of one branch for steps `0..count`, as
/// `(layer, (branch, step))`, keeping the steps whose layer is below `n_layers`.
pub open spec fn branch_interface_entries(
    roof: bool,
    anchor: usize,
    branch: usize,
    count: int,
    n_layers: int,
) -> Seq<(usize, (usize, usize))>
    decreases count,
{
    if count <= 0 {
        Seq::empty()
    } else {
        let prev = branch_interface_entries(roof, anchor, branch, count - 1, n_layers);
        let idx = interface_layer_index(roof, anchor, count - 1);
        if idx < n_layers {
            prev.push((idx as usize, (branch, (count - 1) as usize)))
        } else {
            prev
        }
    }
}

/// The node that anchors a branch's interface: the contact node (first) for a
/// roof, the base node (last) for a floor.
pub open spec fn anchor_node<S>(branch: Branch<S>, roof: bool) -> SupportNode<S> {
    if roof {
        branch.nodes@[0]
    } else {
        branch.nodes@.last()
    }
}

/// The layer of the node that anchors a branch's interface.
pub open spec fn anchor_layer<S>(branch: Branch<S>, roof: bool) -> usize {
    anchor_node(branch, roof).layer_index
}

/// The number of points of an interface circle.
pub open spec fn interface_circle_segments() -> int {
    16
}

/// The interface area of a branch: a circle with the anchor node's radius
/// around its position.
pub open spec fn anchor_circle<S>(branch: Branch<S>, roof: bool) -> Seq<Point2D> {
    circle_seq(
        anchor_node(branch, roof).position,
        anchor_node(branch, roof).radius as int,
        interface_circle_segments(),
    )
}

/// Whether branch `b` has an interface step, among the first `count`, whose
/// layer is below `n_layers`: only then is its interface circle drawn.
pub open spec fn has_interface_step<S>(branch: Branch<S>, roof: bool, count: int, n_layers: int) -> bool {
    &&& branch.nodes@.len() > 0
    &&& exists|i: int|
        0 <= i < count && #[trigger] interface_layer_index(roof, anchor_layer(branch, roof), i)
            < n_layers
}

/// Whether the interface circle of every branch that gets an interface layer
/// can be drawn.
pub open spec fn anchor_circles_drawable<S>(
    branches: Seq<Branch<S>>,
    roof: bool,
    count: int,
    n_layers: int,
) -> bool {
    forall|b: int|
        0 <= b < branches.len() && has_interface_step(#[trigger] branches[b], roof, count, n_layers)
            ==> circle_drawable(
            anchor_node(branches[b], roof).position,
            anchor_node(branches[b], roof).radius as int,
            interface_circle_segments(),
        )
}

/// Generate a circular polygon approximation.
///
/// Creates a polygon with `segments` vertices approximating a circle centered
/// at `center` with the given `radius`: vertex `i` lies at angle
/// `2πi/segments`, its offsets truncated toward zero. Segment counts that
/// divide 16 are drawn.
pub fn generate_circle_polygon(center: &Point2D, radius: CoordT, segments: usize) -> (points: Vec<
    Point2D,
>)
    requires
        circle_drawable(*center, radius as int, segments as int),
    ensures
        points@ == circle_seq(*center, radius as int, segments as int),
{
    circle_points(center, radius, segments)
}

/// The interface entries of the first `nb` branches, branch after branch;
/// branches without nodes contribute none.
pub open spec fn interface_entries<S>(
    branches: Seq<Branch<S>>,
    nb: int,
    roof: bool,
    count: int,
    n_layers: int,
) -> Seq<(usize, (usize, usize))>
    decreases nb,
{
    if nb <= 0 {
        Seq::empty()
    } else {
        let prev = interface_entries(branches, nb - 1, roof, count, n_layers);
        if branches[nb - 1].nodes@.len() == 0 {
            prev
        } else {
            prev + branch_interface_entries(
                roof,
                anchor_layer(branches[nb - 1], roof),
                (nb - 1) as usize,
                count,
                n_layers,
            )
        }
    }
}

/// Whether `layer` is the interface layer built for entry `e`: at the entry's
/// layer and height, of the given kind, with the interface circle of the
/// entry's branch as its one polygon and the fill angle of the entry's step.
pub open spec fn built_from<S>(
    layer: InterfaceLayer<S>,
    e: (usize, (usize, usize)),
    roof: bool,
    branches: Seq<Branch<S>>,
    layer_heights: Seq<S>,
    fill_angles: Seq<S>,
) -> bool {
    &&& layer.z == layer_heights[e.0 as int]
    &&& layer.layer_index == e.0
    &&& layer.is_roof == roof
    &&& layer.polygons@.len() == 1
    &&& layer.polygons@[0]@ == anchor_circle(branches[e.1.0 as int], roof)
    &&& layer.fill_angle == fill_angles[e.1.1 as int]
}

/// Whether `layers` are the interface layers built for `entries`, one for one.
pub open spec fn all_built_from<S>(
    layers: Seq<InterfaceLayer<S>>,
    entries: Seq<(usize, (usize, usize))>,
    roof: bool,
    branches: Seq<Branch<S>>,
    layer_heights: Seq<S>,
    fill_angles: Seq<S>,
) -> bool {
    &&& layers.len() == entries.len()
    &&& forall|m: int|
        0 <= m < layers.len() ==> built_from(
            #[trigger] layers[m],
            entries[m],
            roof,
            branches,
            layer_heights,
            fill_angles,
        )
}

/// The interface layers of one kind (roof or floor) that
/// `generate_interface_layers` returns: those built for the branches' entries,
/// sorted by layer index with ties kept in generation order.
pub open spec fn interface_layers_of<S>(
    layers: Seq<InterfaceLayer<S>>,
    branches: Seq<Branch<S>>,
    enabled: bool,
    roof: bool,
    count: int,
    layer_heights: Seq<S>,
    fill_angles: Seq<S>,
) -> bool {
    if enabled {
        all_built_from(
            layers,
            grouped_by_layer(
                interface_entries(branches, branches.len() as int, roof, count, layer_heights.len() as int),
                layer_heights.len() as int,
            ),
            roof,
            branches,
            layer_heights,
            fill_angles,
        )
    } else {
        layers.len() == 0
    }
}

proof fn lemma_built_concat<S>(
    a: Seq<InterfaceLayer<S>>,
    x: Seq<(usize, (usize, usize))>,
    b: Seq<InterfaceLayer<S>>,
    y: Seq<(usize, (usize, usize))>,
    roof: bool,
    branches: Seq<Branch<S>>,
    layer_heights: Seq<S>,
    fill_angles: Seq<S>,
)
    requires
        all_built_from(a, x, roof, branches, layer_heights, fill_angles),
        all_built_from(b, y, roof, branches, layer_heights, fill_angles),
    ensures
        all_built_from(a + b, x + y, roof, branches, layer_heights, fill_angles),
{
    assert forall|m: int| 0 <= m < (a + b).len() implies built_from(
        #[trigger] (a + b)[m],
        (x + y)[m],
        roof,
        branches,
        layer_heights,
        fill_angles,
    ) by {
        if m < a.len() {
            assert((a + b)[m] == a[m]);
        } else {
            assert((a + b)[m] == b[m - a.len()]);
        }
    }
}

/// Whether some branch has a node, so that an interface can be anchored.
pub open spec fn some_branch_has_nodes<S>(branches: Seq<Branch<S>>) -> bool {
    exists|b: int| 0 <= b < branches.len() && (#[trigger] branches[b]).nodes@.len() > 0
}

/// Whether two step counts give a branch the same interface entries: both
/// non-positive, no layer at all, the same count, or (for a floor) both at
/// least the layer count, since floor step `i` lies at least `i` layers up.
pub open spec fn same_steps(roof: bool, c1: int, c2: int, n_layers: int) -> bool {
    ||| c1 <= 0 && c2 <= 0
    ||| n_layers <= 0
    ||| c1 == c2
    ||| !roof && c1 >= n_layers && c2 == n_layers
}

/// Interface layer indices are never negative.
proof fn lemma_interface_layer_index_nonneg(roof: bool, anchor: usize, step: int)
    requires
        step >= 0,
    ensures
        interface_layer_index(roof, anchor, step) >= 0,
{
}

/// Counts with the same steps give a branch the same interface entries.
proof fn lemma_branch_entries_same_steps(
    roof: bool,
    anchor: usize,
    branch: usize,
    c1: int,
    c2: int,
    n_layers: int,
)
    requires
        same_steps(roof, c1, c2, n_layers),
    ensures
        branch_interface_entries(roof, anchor, branch, c1, n_layers) == branch_interface_entries(
            roof,
            anchor,
            branch,
            c2,
            n_layers,
        ),
    decreases
            if c1 > c2 {
                c1
            } else {
                c2
            },
{
    if c1 == c2 || (c1 <= 0 && c2 <= 0) {
    } else if n_layers <= 0 {
        if c1 > 0 {
            lemma_branch_entries_same_steps(roof, anchor, branch, c1 - 1, 0, n_layers);
            lemma_interface_layer_index_nonneg(roof, anchor, c1 - 1);
        }
        if c2 > 0 {
            lemma_branch_entries_same_steps(roof, anchor, branch, 0, c2 - 1, n_layers);
            lemma_interface_layer_index_nonneg(roof, anchor, c2 - 1);
        }
    } else {
        // a floor, with c1 > c2 == n_layers
        lemma_branch_entries_same_steps(roof, anchor, branch, c1 - 1, c2, n_layers);
    }
}

/// Counts with the same steps give all branches the same interface entries.
proof fn lemma_entries_same_steps<S>(
    branches: Seq<Branch<S>>,
    nb: int,
    roof: bool,
    c1: int,
    c2: int,
    n_layers: int,
)
    requires
        same_steps(roof, c1, c2, n_layers),
    ensures
        interface_entries(branches, nb, roof, c1, n_layers) == interface_entries(
            branches,
            nb,
            roof,
            c2,
            n_layers,
        ),
    decreases nb,
{
    if nb > 0 {
        lemma_entries_same_steps(branches, nb - 1, roof, c1, c2, n_layers);
        lemma_branch_entries_same_steps(
            roof,
            anchor_layer(branches[nb - 1], roof),
            (nb - 1) as usize,
            c1,
            c2,
            n_layers,
        );
    }
}

/// Fewer steps draw no more circles: a branch with an interface step among
/// the first `c1` has one among the first `c2 ≥ c1`, and no count below one
/// has a step at all.
proof fn lemma_drawable_fewer_steps<S>(
    branches: Seq<Branch<S>>,
    roof: bool,
    c1: int,
    c2: int,
    n_layers: int,
)
    requires
        c1 <= c2 || c1 <= 0,
        anchor_circles_drawable(branches, roof, c2, n_layers),
    ensures
        anchor_circles_drawable(branches, roof, c1, n_layers),
{
    assert forall|b: int|
        0 <= b < branches.len() && has_interface_step(
            #[trigger] branches[b],
            roof,
            c1,
            n_layers,
        ) implies has_interface_step(branches[b], roof, c2, n_layers) by {
        let i = choose|i: int|
            0 <= i < c1 && #[trigger] interface_layer_index(
                roof,
                anchor_layer(branches[b], roof),
                i,
            ) < n_layers;
        assert(interface_layer_index(roof, anchor_layer(branches[b], roof), i) < n_layers);
    }
}

/// Build the interface layers of one kind for all branches, grouped by layer.
fn collect_interface_layers<S: Copy>(
    branches: &[Branch<S>],
    roof: bool,
    count: usize,
    layer_heights: &[S],
    fill_angles: &[S],
) -> (out: Vec<InterfaceLayer<S>>)
    requires
        anchor_circles_drawable(branches@, roof, count as int, layer_heights@.len() as int),
        some_branch_has_nodes(branches@) ==> fill_angles@.len() >= count,
    ensures
        all_built_from(
            out@,
            grouped_by_layer(
                interface_entries(
                    branches@,
                    branches@.len() as int,
                    roof,
                    count as int,
                    layer_heights@.len() as int,
                ),
                layer_heights@.len() as int,
            ),
            roof,
            branches@,
            layer_heights@,
            fill_angles@,
        ),
{
    let n_layers = layer_heights.len();
    let ghost nl = n_layers as int;
    let mut buckets: Vec<Vec<InterfaceLayer<S>>> = Vec::new();
    let mut k: usize = 0;
    while k < n_layers
        invariant
            0 <= k <= n_layers,
            buckets@.len() == k,
            forall|j: int| 0 <= j < k ==> (#[trigger] buckets@[j])@.len() == 0,
        decreases n_layers - k,
    {
        buckets.push(Vec::new());
        k = k + 1;
    }
    let ghost mut processed: Seq<(usize, (usize, usize))> = Seq::empty();
    proof {
        assert forall|j: int| 0 <= j < nl implies all_built_from(
            (#[trigger] buckets@[j])@,
            entries_at(processed, j),
            roof,
            branches@,
            layer_heights@,
            fill_angles@,
        ) by {}
    }
    let mut b: usize = 0;
    while b < branches.len()
        invariant
            n_layers == layer_heights@.len(),
            nl == n_layers,
            anchor_circles_drawable(branches@, roof, count as int, nl),
            some_branch_has_nodes(branches@) ==> fill_angles@.len() >= count,
            buckets@.len() == n_layers,
            0 <= b <= branches@.len(),
            processed == interface_entries(branches@, b as int, roof, count as int, nl),
            forall|e: int| 0 <= e < processed.len() ==> (#[trigger] processed[e]).0 < n_layers,
            forall|j: int|
                0 <= j < nl ==> all_built_from(
                    (#[trigger] buckets@[j])@,
                    entries_at(processed, j),
                    roof,
                    branches@,
                    layer_heights@,
                    fill_angles@,
                ),
        decreases branches@.len() - b,
    {
        let nodes = &branches[b].nodes;
        if nodes.len() > 0 {
            let anchor_at = if roof {
                &nodes[0]
            } else {
                &nodes[nodes.len() - 1]
            };
            let anchor = anchor_at.layer_index;
            assert(*anchor_at == anchor_node(branches@[b as int], roof));
            assert(some_branch_has_nodes(branches@)) by {
                assert(branches@[b as int].nodes@.len() > 0);
            }
            let mut circle: Option<Vec<Point2D>> = None;
            let ghost branch_start = processed;
            let mut i: usize = 0;
            while i < count
                invariant
                    n_layers == layer_heights@.len(),
                    nl == n_layers,
                    anchor_circles_drawable(branches@, roof, count as int, nl),
                    fill_angles@.len() >= count,
                    buckets@.len() == n_layers,
                    0 <= b < branches@.len(),
                    branches@[b as int].nodes@.len() > 0,
                    *anchor_at == anchor_node(branches@[b as int], roof),
                    anchor == anchor_at.layer_index,
                    circle matches Some(c) ==> c@ == anchor_circle(branches@[b as int], roof),
                    0 <= i <= count,
                    processed == branch_start + branch_interface_entries(
                        roof,
                        anchor,
                        b,
                        i as int,
                        nl,
                    ),
                    forall|e: int| 0 <= e < processed.len() ==> (#[trigger] processed[e]).0 < n_layers,
                    forall|j: int|
                        0 <= j < nl ==> all_built_from(
                            (#[trigger] buckets@[j])@,
                            entries_at(processed, j),
                            roof,
                            branches@,
                            layer_heights@,
                            fill_angles@,
                        ),
                decreases count - i,
            {
                let in_range: bool;
                let mut idx: usize = 0;
                if roof {
                    idx = anchor.saturating_sub(i + 1);
                    in_range = idx < n_layers;
                } else {
                    in_range = anchor < n_layers && i < n_layers - anchor;
                    if in_range {
                        idx = anchor + i;
                    }
                }
                assert(in_range == (interface_layer_index(roof, anchor, i as int) < nl));
                if in_range {
                    assert(idx == interface_layer_index(roof, anchor, i as int));
                    if circle.is_none() {
                        assert(interface_layer_index(
                            roof,
                            anchor_layer(branches@[b as int], roof),
                            i as int,
                        ) < nl);
                        assert(has_interface_step(branches@[b as int], roof, count as int, nl));
                        circle = Some(generate_circle_polygon(&anchor_at.position, anchor_at.radius, 16));
                    }
                    let drawn = circle.as_ref().unwrap();
                    let layer = InterfaceLayer {
                        z: layer_heights[idx],
                        layer_index: idx,
                        is_roof: roof,
                        polygons: {
                            let mut ps: Vec<Vec<Point2D>> = Vec::new();
                            ps.push(copy_polygon(drawn));
                            ps
                        },
                        fill_angle: fill_angles[i],
                    };
                    let ghost e = (idx, (b, i));
                    let ghost old_buckets = buckets@;
                    buckets[idx].push(layer);
                    proof {
                        assert(built_from(layer, e, roof, branches@, layer_heights@, fill_angles@));
                        let old_processed = processed;
                        processed = processed.push(e);
                        assert(processed.drop_last() =~= old_processed);
                        assert forall|j: int| 0 <= j < nl implies all_built_from(
                            (#[trigger] buckets@[j])@,
                            entries_at(processed, j),
                            roof,
                            branches@,
                            layer_heights@,
                            fill_angles@,
                        ) by {
                            if j == idx {
                                assert(buckets@[j]@ =~= old_buckets[j]@.push(layer));
                                assert(entries_at(processed, j) == entries_at(old_processed, j).push(e));
                                assert forall|m: int| 0 <= m < buckets@[j]@.len() implies built_from(
                                    #[trigger] buckets@[j]@[m],
                                    entries_at(processed, j)[m],
                                    roof,
                                    branches@,
                                    layer_heights@,
                                    fill_angles@,
                                ) by {
                                    if m < old_buckets[j]@.len() {
                                        assert(buckets@[j]@[m] == old_buckets[j]@[m]);
                                    }
                                }
                            } else {
                                assert(buckets@[j] == old_buckets[j]);
                            }
                        }
                        assert(branch_start + branch_interface_entries(roof, anchor, b, i + 1, nl)
                            =~= processed);
                    }
                } else {
                    proof {
                        assert(branch_start + branch_interface_entries(roof, anchor, b, i + 1, nl)
                            =~= processed);
                    }
                }
                i = i + 1;
            }
        }
        b = b + 1;
    }
    let ghost all_entries = processed;
    let mut out: Vec<InterfaceLayer<S>> = Vec::new();
    let mut k: usize = 0;
    while k < n_layers
        invariant
            n_layers == layer_heights@.len(),
            nl == n_layers,
            buckets@.len() == n_layers,
            0 <= k <= n_layers,
            all_built_from(
                out@,
                grouped_by_layer(all_entries, k as int),
                roof,
                branches@,
                layer_heights@,
                fill_angles@,
            ),
            forall|j: int|
                k <= j < nl ==> all_built_from(
                    (#[trigger] buckets@[j])@,
                    entries_at(all_entries, j),
                    roof,
                    branches@,
                    layer_heights@,
                    fill_angles@,
                ),
        decreases n_layers - k,
    {
        let ghost before = out@;
        let ghost bucket = buckets@[k as int]@;
        let ghost old_buckets = buckets@;
        out.append(&mut buckets[k]);
        proof {
            lemma_built_concat(
                before,
                grouped_by_layer(all_entries, k as int),
                bucket,
                entries_at(all_entries, k as int),
                roof,
                branches@,
                layer_heights@,
                fill_angles@,
            );
            assert forall|j: int| k + 1 <= j < nl implies all_built_from(
                (#[trigger] buckets@[j])@,
                entries_at(all_entries, j),
                roof,
                branches@,
                layer_heights@,
                fill_angles@,
            ) by {
                assert(buckets@[j] == old_buckets[j]);
            }
        }
        k = k + 1;
    }
    out
}

/// Generate interface layers (roof and floor) from branches.
///
/// For each branch with nodes, when roofs are enabled, roof step `i` (for `i`
/// below the roof layer count) lies `i + 1` layers below the contact node
/// (first node), saturating at layer 0; when floors are enabled, floor step
/// `i` lies `i` layers above the base node (last node). Steps whose layer has
/// no height are skipped. Each layer gets its height, as its one polygon a
/// circle of 16 points with the anchor node's radius around the anchor node's
/// position, and the fill angle of its step (`fill_angles[i]`). Both lists come
/// out sorted by layer index, keeping generation order among equal layers.
/// Without a layer height or a branch with nodes both lists are empty, whatever
/// the counts; otherwise the counts must not be negative, and there must be a
/// fill angle for each roof step and for each floor step that can have a
/// height.
pub fn generate_interface_layers<S: Copy>(
    branches: &[Branch<S>],
    config: &ScaledSupportConfig,
    layer_heights: &[S],
    fill_angles: &[S],
) -> (r: InterfaceResult<S>)
    requires
        config.support_roof_enable && layer_heights@.len() > 0 && some_branch_has_nodes(branches@)
            ==> 0 <= config.support_roof_layers <= fill_angles@.len(),
        config.support_roof_enable ==> anchor_circles_drawable(
            branches@,
            true,
            config.support_roof_layers as int,
            layer_heights@.len() as int,
        ),
        config.support_floor_enable && layer_heights@.len() > 0 && some_branch_has_nodes(branches@)
            ==> 0 <= config.support_floor_layers && (config.support_floor_layers
            <= fill_angles@.len() || layer_heights@.len() <= fill_angles@.len()),
        config.support_floor_enable ==> anchor_circles_drawable(
            branches@,
            false,
            config.support_floor_layers as int,
            layer_heights@.len() as int,
        ),
    ensures
        interface_layers_of(
            r.roof_layers@,
            branches@,
            config.support_roof_enable,
            true,
            config.support_roof_layers as int,
            layer_heights@,
            fill_angles@,
        ),
        interface_layers_of(
            r.floor_layers@,
            branches@,
            config.support_floor_enable,
            false,
            config.support_floor_layers as int,
            layer_heights@,
            fill_angles@,
        ),
{
    let n = layer_heights.len();
    let roof_layers = if config.support_roof_enable {
        let count: usize = if config.support_roof_layers <= 0 || n == 0 {
            0
        } else {
            config.support_roof_layers as usize
        };
        proof {
            lemma_drawable_fewer_steps(
                branches@,
                true,
                count as int,
                config.support_roof_layers as int,
                n as int,
            );
            lemma_entries_same_steps(
                branches@,
                branches@.len() as int,
                true,
                config.support_roof_layers as int,
                count as int,
                n as int,
            );
        }
        collect_interface_layers(branches, true, count, layer_heights, fill_angles)
    } else {
        Vec::new()
    };
    let floor_layers = if config.support_floor_enable {
        let count: usize = if config.support_floor_layers <= 0 || n == 0 {
            0
        } else if config.support_floor_layers as usize > n {
            n
        } else {
            config.support_floor_layers as usize
        };
        proof {
            lemma_drawable_fewer_steps(
                branches@,
                false,
                count as int,
                config.support_floor_layers as int,
                n as int,
            );
            lemma_entries_same_steps(
                branches@,
                branches@.len() as int,
                false,
                config.support_floor_layers as int,
                count as int,
                n as int,
            );
        }
        collect_interface_layers(branches, false, count, layer_heights, fill_angles)
    } else {
        Vec::new()
    };
    InterfaceResult { roof_layers, floor_layers }
}

/// Resolve overlap between interface areas and support body areas.
///
/// Every preference leaves the interface layers as they are.
pub fn resolve_interface_overlap<S>(
    interface: &mut InterfaceResult<S>,
    preference: InterfacePreference,
)
    ensures
        final(interface).roof_layers@ == old(interface).roof_layers@,
        final(interface).floor_layers@ == old(interface).floor_layers@,
{
    match preference {
        InterfacePreference::InterfaceAreaOverwritesSupport
        | InterfacePreference::InterfaceLinesOverwriteSupport => {},
        InterfacePreference::SupportAreaOverwritesInterface
        | InterfacePreference::SupportLinesOverwriteInterface => {},
        InterfacePreference::Nothing => {},
    }
}

/// The interface layers that `generate_interface_layers` returns are sorted by
/// layer index, and every one of them is a layer that has a height.
pub proof fn lemma_interface_layers_sorted<S>(
    layers: Seq<InterfaceLayer<S>>,
    branches: Seq<Branch<S>>,
    enabled: bool,
    roof: bool,
    count: int,
    layer_heights: Seq<S>,
    fill_angles: Seq<S>,
)
    requires
        interface_layers_of(layers, branches, enabled, roof, count, layer_heights, fill_angles),
    ensures
        forall|i: int, j: int|
            0 <= i < j < layers.len() ==> (#[trigger] layers[i]).layer_index <= (
            #[trigger] layers[j]).layer_index,
        forall|i: int| 0 <= i < layers.len() ==> (#[trigger] layers[i]).layer_index < layer_heights.len(),
{
    if enabled {
        let entries = interface_entries(
            branches,
            branches.len() as int,
            roof,
            count,
            layer_heights.len() as int,
        );
        let g = grouped_by_layer(entries, layer_heights.len() as int);
        lemma_grouped_by_layer_sorted(entries, layer_heights.len() as int);
        assert forall|i: int, j: int| 0 <= i < j < layers.len() implies (
        #[trigger] layers[i]).layer_index <= (#[trigger] layers[j]).layer_index by {
            assert(built_from(layers[i], g[i], roof, branches, layer_heights, fill_angles));
            assert(built_from(layers[j], g[j], roof, branches, layer_heights, fill_angles));
        }
        assert forall|i: int| 0 <= i < layers.len() implies (#[trigger] layers[i]).layer_index
            < layer_heights.len() by {
            assert(built_from(layers[i], g[i], roof, branches, layer_heights, fill_angles));
        }
    }
}

/// The entries of one branch are exactly its steps below `count` whose
/// layer is below `n_layers`, tagged with the branch and the step.
proof fn lemma_branch_entries_contains(
    roof: bool,
    anchor: usize,
    branch: usize,
    count: int,
    n_layers: int,
    e: (usize, (usize, usize)),
)
    requires
        count <= usize::MAX + 1,
        n_layers <= usize::MAX + 1,
    ensures
        branch_interface_entries(roof, anchor, branch, count, n_layers).contains(e) <==> (e.1.0
            == branch && 0 <= e.1.1 < count && e.0 == interface_layer_index(roof, anchor, e.1.1 as int)
            && e.0 < n_layers),
    decreases count,
{
    if count > 0 {
        lemma_branch_entries_contains(roof, anchor, branch, count - 1, n_layers, e);
        lemma_interface_layer_index_nonneg(roof, anchor, count - 1);
        let prev = branch_interface_entries(roof, anchor, branch, count - 1, n_layers);
        let cur = branch_interface_entries(roof, anchor, branch, count, n_layers);
        let idx = interface_layer_index(roof, anchor, count - 1);
        if idx < n_layers {
            assert(cur == prev.push((idx as usize, (branch, (count - 1) as usize))));
            if cur.contains(e) {
                let i = choose|i: int| 0 <= i < cur.len() && cur[i] == e;
                if i < prev.len() {
                    assert(prev[i] == e);
                }
            }
            if e.1.0 == branch && 0 <= e.1.1 < count && e.0 == interface_layer_index(
                roof,
                anchor,
                e.1.1 as int,
            ) && e.0 < n_layers {
                if e.1.1 < count - 1 {
                    let i = choose|i: int| 0 <= i < prev.len() && prev[i] == e;
                    assert(cur[i] == e);
                } else {
                    assert(cur[cur.len() - 1] == e);
                }
            }
        }
    }
}

/// The interface entries of the first `nb` branches are exactly the steps
/// below `count`, of a branch below `nb` that has nodes, whose layer is below
/// `n_layers`.
proof fn lemma_interface_entries_contains<S>(
    branches: Seq<Branch<S>>,
    nb: int,
    roof: bool,
    count: int,
    n_layers: int,
    e: (usize, (usize, usize)),
)
    requires
        nb <= branches.len() <= usize::MAX,
        count <= usize::MAX + 1,
        n_layers <= usize::MAX + 1,
    ensures
        interface_entries(branches, nb, roof, count, n_layers).contains(e) <==> (0 <= e.1.0 < nb
            && branches[e.1.0 as int].nodes@.len() > 0 && 0 <= e.1.1 < count && e.0
            == interface_layer_index(roof, anchor_layer(branches[e.1.0 as int], roof), e.1.1 as int)
            && e.0 < n_layers),
    decreases nb,
{
    if nb > 0 {
        lemma_interface_entries_contains(branches, nb - 1, roof, count, n_layers, e);
        let prev = interface_entries(branches, nb - 1, roof, count, n_layers);
        let cur = interface_entries(branches, nb, roof, count, n_layers);
        if branches[nb - 1].nodes@.len() > 0 {
            let mine = branch_interface_entries(
                roof,
                anchor_layer(branches[nb - 1], roof),
                (nb - 1) as usize,
                count,
                n_layers,
            );
            lemma_branch_entries_contains(
                roof,
                anchor_layer(branches[nb - 1], roof),
                (nb - 1) as usize,
                count,
                n_layers,
                e,
            );
            assert(cur == prev + mine);
            if cur.contains(e) {
                let i = choose|i: int| 0 <= i < cur.len() && cur[i] == e;
                if i < prev.len() {
                    assert(prev[i] == e);
                } else {
                    assert(mine[i - prev.len()] == e);
                }
            }
            if 0 <= e.1.0 < nb && branches[e.1.0 as int].nodes@.len() > 0 && 0 <= e.1.1 < count
                && e.0 == interface_layer_index(roof, anchor_layer(branches[e.1.0 as int], roof), e.1.1 as int)
                && e.0 < n_layers {
                if e.1.0 < nb - 1 {
                    let i = choose|i: int| 0 <= i < prev.len() && prev[i] == e;
                    assert(cur[i] == e);
                } else {
                    let i = choose|i: int| 0 <= i < mine.len() && mine[i] == e;
                    assert(cur[prev.len() + i] == e);
                }
            }
        }
    }
}

/// Where a roof layer lies and what it holds: roof layer `m` of the result
/// comes from a branch with nodes and a step `i` below the roof count; it lies
/// `i + 1` layers below the branch's first (contact) node, saturating at
/// layer 0, has that layer's height and the fill angle of step `i`, and holds
/// as its one polygon the 16-point circle with the contact node's radius
/// around the contact node.
pub proof fn lemma_roof_layer_under_contact<S>(
    layers: Seq<InterfaceLayer<S>>,
    branches: Seq<Branch<S>>,
    count: int,
    layer_heights: Seq<S>,
    fill_angles: Seq<S>,
    m: int,
)
    requires
        interface_layers_of(layers, branches, true, true, count, layer_heights, fill_angles),
        branches.len() <= usize::MAX,
        count <= usize::MAX,
        layer_heights.len() <= usize::MAX,
        0 <= m < layers.len(),
    ensures
        exists|b: int, i: int|
            #![trigger branches[b], fill_angles[i]]
            0 <= b < branches.len() && branches[b].nodes@.len() > 0 && 0 <= i < count
                && layers[m].layer_index == (if branches[b].nodes@[0].layer_index >= i + 1 {
                branches[b].nodes@[0].layer_index - (i + 1)
            } else {
                0
            }) && layers[m].is_roof && layers[m].polygons@.len() == 1 && layers[m].polygons@[0]@
                == circle_seq(branches[b].nodes@[0].position, branches[b].nodes@[0].radius as int, 16)
                && layers[m].fill_angle == fill_angles[i] && layers[m].layer_index
                < layer_heights.len() && layers[m].z == layer_heights[layers[m].layer_index as int],
{
    let n = layer_heights.len() as int;
    let entries = interface_entries(branches, branches.len() as int, true, count, n);
    let g = grouped_by_layer(entries, n);
    let e = g[m];
    assert(built_from(layers[m], e, true, branches, layer_heights, fill_angles));
    assert(g.contains(e));
    lemma_grouped_by_layer_contains(entries, n, e);
    lemma_interface_entries_contains(branches, branches.len() as int, true, count, n, e);
    let b = e.1.0 as int;
    let i = e.1.1 as int;
    assert(anchor_node(branches[b], true) == branches[b].nodes@[0]);
}

/// Every roof step has its layer: for a branch `b` with nodes and a step
/// `i` below the roof count whose layer (`i + 1` below the contact node,
/// saturating at 0) has a height, the result holds a roof layer there with the
/// 16-point circle around the contact node and the fill angle of step `i`.
pub proof fn lemma_roof_step_has_layer<S>(
    layers: Seq<InterfaceLayer<S>>,
    branches: Seq<Branch<S>>,
    count: int,
    layer_heights: Seq<S>,
    fill_angles: Seq<S>,
    b: int,
    i: int,
)
    requires
        interface_layers_of(layers, branches, true, true, count, layer_heights, fill_angles),
        branches.len() <= usize::MAX,
        count <= usize::MAX,
        layer_heights.len() <= usize::MAX,
        0 <= b < branches.len(),
        branches[b].nodes@.len() > 0,
        0 <= i < count,
        (if branches[b].nodes@[0].layer_index >= i + 1 {
            branches[b].nodes@[0].layer_index - (i + 1)
        } else {
            0
        }) < layer_heights.len(),
    ensures
        exists|m: int|
            0 <= m < layers.len() && (#[trigger] layers[m]).layer_index == (if branches[b].nodes@[0].layer_index
                >= i + 1 {
                branches[b].nodes@[0].layer_index - (i + 1)
            } else {
                0
            }) && layers[m].polygons@[0]@ == circle_seq(
                branches[b].nodes@[0].position,
                branches[b].nodes@[0].radius as int,
                16,
            ) && layers[m].fill_angle == fill_angles[i],
{
    let n = layer_heights.len() as int;
    let entries = interface_entries(branches, branches.len() as int, true, count, n);
    let g = grouped_by_layer(entries, n);
    let idx = interface_layer_index(true, anchor_layer(branches[b], true), i);
    let e = (idx as usize, (b as usize, i as usize));
    lemma_interface_entries_contains(branches, branches.len() as int, true, count, n, e);
    lemma_grouped_by_layer_contains(entries, n, e);
    let m = choose|m: int| 0 <= m < g.len() && g[m] == e;
    assert(built_from(layers[m], g[m], true, branches, layer_heights, fill_angles));
}

/// Where a floor layer lies and what it holds: floor layer `m` of the result
/// comes from a branch with nodes and a step `i` below the floor count; it
/// lies `i` layers above the branch's last (base) node, has that layer's
/// height and the fill angle of step `i`, and holds as its one polygon the
/// 16-point circle with the base node's radius around the base node.
pub proof fn lemma_floor_layer_over_base<S>(
    layers: Seq<InterfaceLayer<S>>,
    branches: Seq<Branch<S>>,
    count: int,
    layer_heights: Seq<S>,
    fill_angles: Seq<S>,
    m: int,
)
    requires
        interface_layers_of(layers, branches, true, false, count, layer_heights, fill_angles),
        branches.len() <= usize::MAX,
        count <= usize::MAX,
        layer_heights.len() <= usize::MAX,
        0 <= m < layers.len(),
    ensures
        exists|b: int, i: int|
            #![trigger branches[b], fill_angles[i]]
            0 <= b < branches.len() && branches[b].nodes@.len() > 0 && 0 <= i < count
                && layers[m].layer_index == branches[b].nodes@[branches[b].nodes@.len() - 1].layer_index
                + i && !layers[m].is_roof && layers[m].polygons@.len() == 1
                && layers[m].polygons@[0]@ == circle_seq(
                branches[b].nodes@[branches[b].nodes@.len() - 1].position,
                branches[b].nodes@[branches[b].nodes@.len() - 1].radius as int,
                16,
            ) && layers[m].fill_angle == fill_angles[i] && layers[m].layer_index
                < layer_heights.len() && layers[m].z == layer_heights[layers[m].layer_index as int],
{
    let n = layer_heights.len() as int;
    let entries = interface_entries(branches, branches.len() as int, false, count, n);
    let g = grouped_by_layer(entries, n);
    let e = g[m];
    assert(built_from(layers[m], e, false, branches, layer_heights, fill_angles));
    assert(g.contains(e));
    lemma_grouped_by_layer_contains(entries, n, e);
    lemma_interface_entries_contains(branches, branches.len() as int, false, count, n, e);
    let b = e.1.0 as int;
    assert(anchor_node(branches[b], false) == branches[b].nodes@[branches[b].nodes@.len() - 1]);
}

/// Every floor step has its layer: for a branch `b` with nodes and a step
/// `i` below the floor count whose layer (`i` above the base node) has a
/// height, the result holds a floor layer there with the 16-point circle
/// around the base node and the fill angle of step `i`.
pub proof fn lemma_floor_step_has_layer<S>(
    layers: Seq<InterfaceLayer<S>>,
    branches: Seq<Branch<S>>,
    count: int,
    layer_heights: Seq<S>,
    fill_angles: Seq<S>,
    b: int,
    i: int,
)
    requires
        interface_layers_of(layers, branches, true, false, count, layer_heights, fill_angles),
        branches.len() <= usize::MAX,
        count <= usize::MAX,
        layer_heights.len() <= usize::MAX,
        0 <= b < branches.len(),
        branches[b].nodes@.len() > 0,
        0 <= i < count,
        branches[b].nodes@[branches[b].nodes@.len() - 1].layer_index + i < layer_heights.len(),
    ensures
        exists|m: int|
            0 <= m < layers.len() && (#[trigger] layers[m]).layer_index
                == branches[b].nodes@[branches[b].nodes@.len() - 1].layer_index + i
                && layers[m].polygons@[0]@ == circle_seq(
                branches[b].nodes@[branches[b].nodes@.len() - 1].position,
                branches[b].nodes@[branches[b].nodes@.len() - 1].radius as int,
                16,
            ) && layers[m].fill_angle == fill_angles[i],
{
    let n = layer_heights.len() as int;
    let entries = interface_entries(branches, branches.len() as int, false, count, n);
    let g = grouped_by_layer(entries, n);
    let idx = interface_layer_index(false, anchor_layer(branches[b], false), i);
    let e = (idx as usize, (b as usize, i as usize));
    lemma_interface_entries_contains(branches, branches.len() as int, false, count, n, e);
    lemma_grouped_by_layer_contains(entries, n, e);
    let m = choose|m: int| 0 <= m < g.len() && g[m] == e;
    assert(built_from(layers[m], g[m], false, branches, layer_heights, fill_angles));
}

} // verus!
