//! Assembly of the final per-layer support geometry.

use vstd::prelude::*;

use crate::branch_generation::{BranchGenerationResult, SupportNode};
use crate::circle::{circle_drawable, circle_points, circle_seq};
use crate::interface_layers::{InterfaceLayer, InterfaceResult};
use crate::utils::{copy_polygon, entries_at, lemma_entries_at_contains, CoordT, Point2D};

verus! {

/// A single layer of support geometry.
///
/// `S` is the scalar type of heights.
#[derive(Debug, Clone)]
pub struct SupportLayerOwned<S> {
    /// Z height.
    pub z: S,
    /// Layer index.
    pub layer_index: usize,
    /// Polygons as sequences of points.
    pub polygons: Vec<Vec<Point2D>>,
}

/// The support geometry of all layers.
#[derive(Debug, Clone)]
pub struct SupportOutputOwned<S> {
    /// Per-layer support geometry.
    pub layers: Vec<SupportLayerOwned<S>>,
    /// Number of branches.
    pub branch_count: usize,
}

/// The number of points of the circle drawn for a node.
pub open spec fn node_circle_segments() -> int {
    16
}

/// The circle drawn for a node: its radius around its position.
pub open spec fn node_circle<S>(node: SupportNode<S>) -> Seq<Point2D> {
    circle_seq(node.position, node.radius as int, node_circle_segments())
}

/// Whether the circle of every node below layer `n_layers` can be drawn.
pub open spec fn node_circles_drawable<S>(
    branches: Seq<crate::branch_generation::Branch<S>>,
    n_layers: int,
) -> bool {
    forall|b: int, j: int|
        0 <= b < branches.len() && 0 <= j < branches[b].nodes@.len() && (#[trigger] branches[b].nodes@[j]).layer_index
            < n_layers ==> circle_drawable(
            branches[b].nodes@[j].position,
            branches[b].nodes@[j].radius as int,
            node_circle_segments(),
        )
}

/// The polygon entries `(layer, points)` of the first `m` nodes of a branch,
/// each node with its circle.
pub open spec fn branch_node_entries<S>(nodes: Seq<SupportNode<S>>, m: int) -> Seq<
    (usize, Seq<Point2D>),
>
    decreases m,
{
    if m <= 0 {
        Seq::empty()
    } else {
        branch_node_entries(nodes, m - 1).push((nodes[m - 1].layer_index, node_circle(nodes[m - 1])))
    }
}

/// The polygon entries of the nodes of the first `nb` branches, branch after branch.
pub open spec fn node_entries<S>(branches: BranchGenerationResult<S>, nb: int) -> Seq<
    (usize, Seq<Point2D>),
>
    decreases nb,
{
    if nb <= 0 {
        Seq::empty()
    } else {
        node_entries(branches, nb - 1) + branch_node_entries(
            branches.branches@[nb - 1].nodes@,
            branches.branches@[nb - 1].nodes@.len() as int,
        )
    }
}

/// The polygon entries of the first `m` polygons of an interface layer.
pub open spec fn layer_polygon_entries<S>(layer: InterfaceLayer<S>, m: int) -> Seq<
    (usize, Seq<Point2D>),
>
    decreases m,
{
    if m <= 0 {
        Seq::empty()
    } else {
        layer_polygon_entries(layer, m - 1).push((layer.layer_index, layer.polygons@[m - 1]@))
    }
}

/// The polygon entries of the first `nl` interface layers, layer after layer.
pub open spec fn interface_polygon_entries<S>(layers: Seq<InterfaceLayer<S>>, nl: int) -> Seq<
    (usize, Seq<Point2D>),
>
    decreases nl,
{
    if nl <= 0 {
        Seq::empty()
    } else {
        interface_polygon_entries(layers, nl - 1) + layer_polygon_entries(
            layers[nl - 1],
            layers[nl - 1].polygons@.len() as int,
        )
    }
}

/// All polygon entries in the order the output takes them: node shapes, then
/// roof polygons, then floor polygons.
pub open spec fn support_entries<S>(
    branches: BranchGenerationResult<S>,
    interface: InterfaceResult<S>,
) -> Seq<(usize, Seq<Point2D>)> {
    node_entries(branches, branches.branches@.len() as int)
        + interface_polygon_entries(
        interface.roof_layers@,
        interface.roof_layers@.len() as int,
    ) + interface_polygon_entries(interface.floor_layers@, interface.floor_layers@.len() as int)
}

/// The non-empty layers among the first `n`, in ascending order, each with
/// the polygons of its entries in entry order.
pub open spec fn support_layers(entries: Seq<(usize, Seq<Point2D>)>, n: int) -> Seq<
    (usize, Seq<Seq<Point2D>>),
>
    decreases n,
{
    if n <= 0 {
        Seq::empty()
    } else {
        let prev = support_layers(entries, n - 1);
        let at = entries_at(entries, n - 1);
        if at.len() > 0 {
            prev.push(((n - 1) as usize, at.map_values(|e: (usize, Seq<Point2D>)| e.1)))
        } else {
            prev
        }
    }
}

/// Whether `bucket` holds the points of `entries`, one polygon per entry.
pub open spec fn bucket_holds(bucket: Seq<Vec<Point2D>>, entries: Seq<(usize, Seq<Point2D>)>) -> bool {
    &&& bucket.len() == entries.len()
    &&& forall|m: int| 0 <= m < bucket.len() ==> (#[trigger] bucket[m])@ == entries[m].1
}

/// Whether every bucket holds the processed entries of its layer.
pub open spec fn buckets_hold(
    buckets: Seq<Vec<Vec<Point2D>>>,
    processed: Seq<(usize, Seq<Point2D>)>,
) -> bool {
    forall|k: int| 0 <= k < buckets.len() ==> bucket_holds((#[trigger] buckets[k])@, entries_at(processed, k))
}

/// Whether `layers` are the support layers for `expected`, with the heights of
/// their layers.
pub open spec fn layers_match<S>(
    layers: Seq<SupportLayerOwned<S>>,
    expected: Seq<(usize, Seq<Seq<Point2D>>)>,
    layer_heights: Seq<S>,
) -> bool {
    &&& layers.len() == expected.len()
    &&& forall|i: int|
        0 <= i < layers.len() ==> {
            &&& (#[trigger] layers[i]).layer_index == expected[i].0
            &&& layers[i].z == layer_heights[expected[i].0 as int]
            &&& layers[i].polygons@.len() == expected[i].1.len()
            &&& forall|m: int|
                0 <= m < layers[i].polygons@.len() ==> (#[trigger] layers[i].polygons@[m])@
                    == expected[i].1[m]
        }
}

/// Draw a circle polygon with the given center, radius, and number of segments.
///
/// Point `i` lies at angle `2πi/segments`, its offsets from the center being
/// `radius·cos` and `radius·sin` of that angle, truncated toward zero. Segment
/// counts that divide 16 are drawn.
pub fn draw_circle(center: &Point2D, radius: CoordT, segments: usize) -> (points: Vec<Point2D>)
    requires
        circle_drawable(*center, radius as int, segments as int),
    ensures
        points@ == circle_seq(*center, radius as int, segments as int),
{
    circle_points(center, radius, segments)
}

/// An entry for a layer that has no bucket leaves every bucket as it was.
proof fn lemma_entry_beyond_buckets(
    buckets: Seq<Vec<Vec<Point2D>>>,
    processed: Seq<(usize, Seq<Point2D>)>,
    e: (usize, Seq<Point2D>),
)
    requires
        buckets_hold(buckets, processed),
        e.0 >= buckets.len(),
    ensures
        buckets_hold(buckets, processed.push(e)),
{
    let next = processed.push(e);
    assert(next.drop_last() =~= processed);
    assert forall|k: int| 0 <= k < buckets.len() implies bucket_holds(
        (#[trigger] buckets[k])@,
        entries_at(next, k),
    ) by {
        assert(entries_at(next, k) == entries_at(processed, k));
    }
}

/// Put a copy of `polygon` into the bucket of `layer`, if there is one.
fn place_polygon(
    buckets: &mut Vec<Vec<Vec<Point2D>>>,
    layer: usize,
    polygon: &Vec<Point2D>,
    Ghost(processed): Ghost<Seq<(usize, Seq<Point2D>)>>,
)
    requires
        buckets_hold(old(buckets)@, processed),
    ensures
        final(buckets)@.len() == old(buckets)@.len(),
        buckets_hold(final(buckets)@, processed.push((layer, polygon@))),
{
    let ghost e = (layer, polygon@);
    let ghost next = processed.push(e);
    assert(next.drop_last() =~= processed);
    if layer < buckets.len() {
        let ghost old_buckets = buckets@;
        buckets[layer].push(copy_polygon(polygon));
        assert forall|k: int| 0 <= k < buckets@.len() implies bucket_holds(
            (#[trigger] buckets@[k])@,
            entries_at(next, k),
        ) by {
            if k == layer {
                assert(entries_at(next, k) == entries_at(processed, k).push(e));
                assert forall|m: int| 0 <= m < buckets@[k]@.len() implies (
                #[trigger] buckets@[k]@[m])@ == entries_at(next, k)[m].1 by {
                    if m < old_buckets[k]@.len() {
                        assert(buckets@[k]@[m] == old_buckets[k]@[m]);
                    }
                }
            } else {
                assert(buckets@[k] == old_buckets[k]);
            }
        }
    } else {
        assert forall|k: int| 0 <= k < buckets@.len() implies bucket_holds(
            (#[trigger] buckets@[k])@,
            entries_at(next, k),
        ) by {
            assert(entries_at(next, k) == entries_at(processed, k));
        }
    }
}

/// Convert branches and interface layers into the final support output.
///
/// Each branch node contributes to its layer a circle of 16 points with the
/// node's radius around its position; then every roof layer and every floor
/// layer contributes its polygons to its layer. Only layers that have a height and
/// receive at least one polygon appear, in ascending order, each with its height
/// and its polygons in the order above.
pub fn generate_support_output<S: Copy>(
    branches: &BranchGenerationResult<S>,
    interface: &InterfaceResult<S>,
    layer_heights: &[S],
) -> (out: SupportOutputOwned<S>)
    requires
        node_circles_drawable(branches.branches@, layer_heights@.len() as int),
    ensures
        out.branch_count == branches.branches@.len(),
        layers_match(
            out.layers@,
            support_layers(
                support_entries(*branches, *interface),
                layer_heights@.len() as int,
            ),
            layer_heights@,
        ),
{
    let num_layers = layer_heights.len();
    let mut buckets: Vec<Vec<Vec<Point2D>>> = Vec::new();
    let mut k: usize = 0;
    while k < num_layers
        invariant
            0 <= k <= num_layers,
            buckets@.len() == k,
            forall|j: int| 0 <= j < k ==> (#[trigger] buckets@[j])@.len() == 0,
        decreases num_layers - k,
    {
        buckets.push(Vec::new());
        k = k + 1;
    }
    let ghost mut processed: Seq<(usize, Seq<Point2D>)> = Seq::empty();
    assert(buckets_hold(buckets@, processed));
    let bs = &branches.branches;
    let mut b: usize = 0;
    while b < bs.len()
        invariant
            buckets@.len() == num_layers,
            *bs == branches.branches,
            num_layers == layer_heights@.len(),
            node_circles_drawable(bs@, num_layers as int),
            0 <= b <= bs@.len(),
            processed == node_entries(*branches, b as int),
            buckets_hold(buckets@, processed),
        decreases bs@.len() - b,
    {
        let nodes = &bs[b].nodes;
        let ghost start = processed;
        let mut j: usize = 0;
        while j < nodes.len()
            invariant
                buckets@.len() == num_layers,
                num_layers == layer_heights@.len(),
            node_circles_drawable(bs@, num_layers as int),
                0 <= b < bs@.len(),
                *nodes == bs@[b as int].nodes,
                0 <= j <= nodes@.len(),
                processed == start + branch_node_entries(nodes@, j as int),
                buckets_hold(buckets@, processed),
            decreases nodes@.len() - j,
        {
            let node = &nodes[j];
            if node.layer_index < num_layers {
                assert(circle_drawable(
                    bs@[b as int].nodes@[j as int].position,
                    bs@[b as int].nodes@[j as int].radius as int,
                    node_circle_segments(),
                ));
                let circle = draw_circle(&node.position, node.radius, 16);
                place_polygon(&mut buckets, node.layer_index, &circle, Ghost(processed));
            } else {
                proof {
                    lemma_entry_beyond_buckets(
                        buckets@,
                        processed,
                        (node.layer_index, node_circle(*node)),
                    );
                }
            }
            proof {
                processed = processed.push((node.layer_index, node_circle(*node)));
                assert(start + branch_node_entries(nodes@, j + 1) =~= processed);
            }
            j = j + 1;
        }
        b = b + 1;
    }
    let ghost node_part = processed;
    let mut side: usize = 0;
    while side < 2
        invariant
            buckets@.len() == num_layers,
            0 <= side <= 2,
            processed == node_part + (if side >= 1 {
                interface_polygon_entries(
                    interface.roof_layers@,
                    interface.roof_layers@.len() as int,
                )
            } else {
                Seq::empty()
            }) + (if side >= 2 {
                interface_polygon_entries(
                    interface.floor_layers@,
                    interface.floor_layers@.len() as int,
                )
            } else {
                Seq::empty()
            }),
            buckets_hold(buckets@, processed),
        decreases 2 - side,
    {
        let layers = if side == 0 {
            &interface.roof_layers
        } else {
            &interface.floor_layers
        };
        let ghost start = processed;
        let mut l: usize = 0;
        while l < layers.len()
            invariant
                buckets@.len() == num_layers,
                0 <= l <= layers@.len(),
                processed == start + interface_polygon_entries(layers@, l as int),
                buckets_hold(buckets@, processed),
            decreases layers@.len() - l,
        {
            let layer = &layers[l];
            let ghost layer_start = processed;
            let mut m: usize = 0;
            while m < layer.polygons.len()
                invariant
                    buckets@.len() == num_layers,
                    0 <= m <= layer.polygons@.len(),
                    processed == layer_start + layer_polygon_entries(*layer, m as int),
                    buckets_hold(buckets@, processed),
                decreases layer.polygons@.len() - m,
            {
                place_polygon(&mut buckets, layer.layer_index, &layer.polygons[m], Ghost(processed));
                proof {
                    processed = processed.push((layer.layer_index, layer.polygons@[m as int]@));
                    assert(layer_start + layer_polygon_entries(*layer, m + 1) =~= processed);
                }
                m = m + 1;
            }
            proof {
                assert(start + interface_polygon_entries(layers@, l + 1) =~= processed);
            }
            l = l + 1;
        }
        proof {
            assert(layers@.len() == (if side == 0 {
                interface.roof_layers@.len()
            } else {
                interface.floor_layers@.len()
            }));
        }
        side = side + 1;
    }
    let ghost all_entries = processed;
    assert(all_entries =~= support_entries(*branches, *interface));
    let mut layers: Vec<SupportLayerOwned<S>> = Vec::new();
    let mut k: usize = 0;
    while k < num_layers
        invariant
            num_layers == layer_heights@.len(),
            buckets@.len() == num_layers,
            0 <= k <= num_layers,
            layers_match(layers@, support_layers(all_entries, k as int), layer_heights@),
            forall|j: int|
                k <= j < num_layers ==> bucket_holds(
                    (#[trigger] buckets@[j])@,
                    entries_at(all_entries, j),
                ),
        decreases num_layers - k,
    {
        let ghost old_buckets = buckets@;
        if buckets[k].len() > 0 {
            let mut polygons: Vec<Vec<Point2D>> = Vec::new();
            polygons.append(&mut buckets[k]);
            let ghost at = entries_at(all_entries, k as int);
            let ghost before = layers@;
            layers.push(SupportLayerOwned { z: layer_heights[k], layer_index: k, polygons });
            proof {
                let expected = support_layers(all_entries, k + 1);
                assert(expected == support_layers(all_entries, k as int).push(
                    (k, at.map_values(|e: (usize, Seq<Point2D>)| e.1)),
                ));
                assert forall|i: int| 0 <= i < layers@.len() implies {
                    &&& (#[trigger] layers@[i]).layer_index == expected[i].0
                    &&& layers@[i].z == layer_heights@[expected[i].0 as int]
                    &&& layers@[i].polygons@.len() == expected[i].1.len()
                    &&& forall|m: int|
                        0 <= m < layers@[i].polygons@.len() ==> (
                        #[trigger] layers@[i].polygons@[m])@ == expected[i].1[m]
                } by {
                    if i < before.len() {
                        assert(layers@[i] == before[i]);
                    }
                }
            }
        } else {
            proof {
                assert(entries_at(all_entries, k as int).len() == 0);
            }
        }
        proof {
            assert forall|j: int| k + 1 <= j < num_layers implies bucket_holds(
                (#[trigger] buckets@[j])@,
                entries_at(all_entries, j),
            ) by {
                assert(buckets@[j] == old_buckets[j]);
            }
        }
        k = k + 1;
    }
    SupportOutputOwned { layers, branch_count: bs.len() }
}

/// The support layers come in strictly ascending layer order, every one of them
/// below the layer count and holding at least one polygon; and every layer
/// below the count that receives an entry appears.
pub proof fn lemma_support_layers_ordered(entries: Seq<(usize, Seq<Point2D>)>, n: int)
    requires
        n <= usize::MAX,
    ensures
        forall|i: int, j: int|
            0 <= i < j < support_layers(entries, n).len() ==> (#[trigger] support_layers(
                entries,
                n,
            )[i]).0 < (#[trigger] support_layers(entries, n)[j]).0,
        forall|i: int|
            0 <= i < support_layers(entries, n).len() ==> (#[trigger] support_layers(
                entries,
                n,
            )[i]).0 < n && support_layers(entries, n)[i].1.len() > 0,
        forall|k: int|
            0 <= k < n && entries_at(entries, k).len() > 0 ==> exists|i: int|
                0 <= i < support_layers(entries, n).len() && (#[trigger] support_layers(
                    entries,
                    n,
                )[i]).0 == k && #[trigger] entries_at(entries, k).len() > 0,
    decreases n,
{
    if n > 0 {
        lemma_support_layers_ordered(entries, n - 1);
        let prev = support_layers(entries, n - 1);
        let cur = support_layers(entries, n);
        let at = entries_at(entries, n - 1);
        if at.len() > 0 {
            assert(cur == prev.push(((n - 1) as usize, at.map_values(|e: (usize, Seq<Point2D>)| e.1))));
            assert forall|i: int, j: int| 0 <= i < j < cur.len() implies (#[trigger] cur[i]).0
                < (#[trigger] cur[j]).0 by {
                assert(cur[i] == prev[i]);
                if j < prev.len() {
                    assert(cur[j] == prev[j]);
                } else {
                    assert(cur[j].0 == n - 1);
                    assert(prev[i].0 < n - 1);
                }
            }
            assert forall|i: int| 0 <= i < cur.len() implies (#[trigger] cur[i]).0 < n
                && cur[i].1.len() > 0 by {
                if i < prev.len() {
                    assert(cur[i] == prev[i]);
                }
            }
            assert forall|k: int| 0 <= k < n && entries_at(entries, k).len() > 0 implies exists|i: int|
                0 <= i < cur.len() && (#[trigger] cur[i]).0 == k && #[trigger] entries_at(
                    entries,
                    k,
                ).len() > 0 by {
                if k < n - 1 {
                    let i = choose|i: int|
                        0 <= i < prev.len() && (#[trigger] prev[i]).0 == k && #[trigger] entries_at(
                            entries,
                            k,
                        ).len() > 0;
                    assert(cur[i] == prev[i]);
                } else {
                    assert(cur[prev.len() as int] == ((n - 1) as usize, at.map_values(
                        |e: (usize, Seq<Point2D>)| e.1,
                    )));
                    assert(cur[prev.len() as int].0 == k);
                }
            }
        } else {
            assert forall|k: int| 0 <= k < n && entries_at(entries, k).len() > 0 implies exists|i: int|
                0 <= i < cur.len() && (#[trigger] cur[i]).0 == k && #[trigger] entries_at(
                    entries,
                    k,
                ).len() > 0 by {
                if k < n - 1 {
                    let i = choose|i: int|
                        0 <= i < prev.len() && (#[trigger] prev[i]).0 == k && #[trigger] entries_at(
                            entries,
                            k,
                        ).len() > 0;
                }
            }
        }
    }
}

/// The number of nodes on layer `k` among `nodes`.
pub open spec fn nodes_on_layer_in<S>(nodes: Seq<SupportNode<S>>, k: int) -> nat
    decreases nodes.len(),
{
    if nodes.len() == 0 {
        0
    } else {
        nodes_on_layer_in(nodes.drop_last(), k) + if nodes.last().layer_index == k {
            1nat
        } else {
            0nat
        }
    }
}

/// The number of nodes on layer `k` over all branches.
pub open spec fn nodes_on_layer<S>(branches: Seq<crate::branch_generation::Branch<S>>, k: int) -> nat
    decreases branches.len(),
{
    if branches.len() == 0 {
        0
    } else {
        nodes_on_layer(branches.drop_last(), k) + nodes_on_layer_in(branches.last().nodes@, k)
    }
}

/// The number of polygons that the interface layers on layer `k` hold.
pub open spec fn interface_polygons_on_layer<S>(layers: Seq<InterfaceLayer<S>>, k: int) -> nat
    decreases layers.len(),
{
    if layers.len() == 0 {
        0
    } else {
        interface_polygons_on_layer(layers.drop_last(), k) + if layers.last().layer_index == k {
            layers.last().polygons@.len()
        } else {
            0nat
        }
    }
}

/// Picking a layer's entries distributes over concatenation.
proof fn lemma_entries_at_concat(
    a: Seq<(usize, Seq<Point2D>)>,
    b: Seq<(usize, Seq<Point2D>)>,
    k: int,
)
    ensures
        entries_at(a + b, k) == entries_at(a, k) + entries_at(b, k),
    decreases b.len(),
{
    if b.len() > 0 {
        lemma_entries_at_concat(a, b.drop_last(), k);
        assert((a + b).drop_last() =~= a + b.drop_last());
        assert((a + b).last() == b.last());
    } else {
        assert(a + b =~= a);
        assert(entries_at(a, k) + entries_at(b, k) =~= entries_at(a, k));
    }
}

proof fn lemma_branch_node_entries_count<S>(nodes: Seq<SupportNode<S>>, m: int, k: int)
    requires
        0 <= m <= nodes.len(),
    ensures
        entries_at(branch_node_entries(nodes, m), k).len() == nodes_on_layer_in(nodes.take(m), k),
    decreases m,
{
    if m > 0 {
        lemma_branch_node_entries_count(nodes, m - 1, k);
        let prev = branch_node_entries(nodes, m - 1);
        let x = (nodes[m - 1].layer_index, node_circle(nodes[m - 1]));
        assert(branch_node_entries(nodes, m) == prev.push(x));
        assert(prev.push(x).drop_last() =~= prev);
        assert(nodes.take(m).drop_last() =~= nodes.take(m - 1));
    }
}

proof fn lemma_node_entries_count<S>(branches: BranchGenerationResult<S>, nb: int, k: int)
    requires
        0 <= nb <= branches.branches@.len(),
    ensures
        entries_at(node_entries(branches, nb), k).len() == nodes_on_layer(
            branches.branches@.take(nb),
            k,
        ),
    decreases nb,
{
    if nb > 0 {
        lemma_node_entries_count(branches, nb - 1, k);
        let nodes = branches.branches@[nb - 1].nodes@;
        lemma_branch_node_entries_count(nodes, nodes.len() as int, k);
        lemma_entries_at_concat(
            node_entries(branches, nb - 1),
            branch_node_entries(nodes, nodes.len() as int),
            k,
        );
        assert(nodes.take(nodes.len() as int) =~= nodes);
        assert(branches.branches@.take(nb).drop_last() =~= branches.branches@.take(nb - 1));
    }
}

proof fn lemma_layer_polygon_entries_count<S>(layer: InterfaceLayer<S>, m: int, k: int)
    requires
        0 <= m,
    ensures
        entries_at(layer_polygon_entries(layer, m), k).len() == if layer.layer_index == k {
            m
        } else {
            0
        },
    decreases m,
{
    if m > 0 {
        lemma_layer_polygon_entries_count(layer, m - 1, k);
        let prev = layer_polygon_entries(layer, m - 1);
        let x = (layer.layer_index, layer.polygons@[m - 1]@);
        assert(prev.push(x).drop_last() =~= prev);
    }
}

proof fn lemma_interface_polygon_entries_count<S>(layers: Seq<InterfaceLayer<S>>, nl: int, k: int)
    requires
        0 <= nl <= layers.len(),
    ensures
        entries_at(interface_polygon_entries(layers, nl), k).len() == interface_polygons_on_layer(
            layers.take(nl),
            k,
        ),
    decreases nl,
{
    if nl > 0 {
        lemma_interface_polygon_entries_count(layers, nl - 1, k);
        lemma_layer_polygon_entries_count(layers[nl - 1], layers[nl - 1].polygons@.len() as int, k);
        lemma_entries_at_concat(
            interface_polygon_entries(layers, nl - 1),
            layer_polygon_entries(layers[nl - 1], layers[nl - 1].polygons@.len() as int),
            k,
        );
        assert(layers.take(nl).drop_last() =~= layers.take(nl - 1));
    }
}

/// Each support layer holds the polygons of the entries of its layer.
proof fn lemma_support_layer_is_entries(entries: Seq<(usize, Seq<Point2D>)>, n: int, i: int)
    requires
        0 <= i < support_layers(entries, n).len(),
        n <= usize::MAX,
    ensures
        support_layers(entries, n)[i].1 == entries_at(entries, support_layers(entries, n)[i].0 as int).map_values(
            |e: (usize, Seq<Point2D>)| e.1,
        ),
        support_layers(entries, n)[i].0 < n,
    decreases n,
{
    if n > 0 {
        let prev = support_layers(entries, n - 1);
        let at = entries_at(entries, n - 1);
        if i < prev.len() {
            lemma_support_layer_is_entries(entries, n - 1, i);
            if at.len() > 0 {
                assert(support_layers(entries, n)[i] == prev[i]);
            }
        } else {
            assert(support_layers(entries, n)[i] == ((n - 1) as usize, at.map_values(
                |e: (usize, Seq<Point2D>)| e.1,
            )));
        }
    }
}

/// How many polygons each output layer holds: for a layer `k` that has a
/// height, the output has a layer with index `k` exactly when some branch node
/// lies on layer `k` or some roof or floor layer on `k` holds a polygon, and
/// then that layer has height `layer_heights[k]` and holds one polygon per
/// node on layer `k` plus every polygon of every roof and floor layer on `k`.
pub proof fn lemma_support_output_layer_counts<S>(
    branches: BranchGenerationResult<S>,
    interface: InterfaceResult<S>,
    layer_heights: Seq<S>,
    out: SupportOutputOwned<S>,
    k: int,
)
    requires
        layers_match(
            out.layers@,
            support_layers(support_entries(branches, interface), layer_heights.len() as int),
            layer_heights,
        ),
        layer_heights.len() <= usize::MAX,
        0 <= k < layer_heights.len(),
    ensures
        (exists|i: int| 0 <= i < out.layers@.len() && (#[trigger] out.layers@[i]).layer_index == k)
            <==> nodes_on_layer(branches.branches@, k) + interface_polygons_on_layer(
            interface.roof_layers@,
            k,
        ) + interface_polygons_on_layer(interface.floor_layers@, k) > 0,
        forall|i: int|
            0 <= i < out.layers@.len() && (#[trigger] out.layers@[i]).layer_index == k
                ==> out.layers@[i].polygons@.len() == nodes_on_layer(branches.branches@, k)
                + interface_polygons_on_layer(interface.roof_layers@, k)
                + interface_polygons_on_layer(interface.floor_layers@, k) && out.layers@[i].z
                == layer_heights[k],
{
    let n = layer_heights.len() as int;
    let entries = support_entries(branches, interface);
    let sl = support_layers(entries, n);
    let nb = branches.branches@.len() as int;
    let roofs = interface.roof_layers@;
    let floors = interface.floor_layers@;
    let a = node_entries(branches, nb);
    let r = interface_polygon_entries(roofs, roofs.len() as int);
    let f = interface_polygon_entries(floors, floors.len() as int);
    assert(entries == a + r + f);
    lemma_entries_at_concat(a + r, f, k);
    lemma_entries_at_concat(a, r, k);
    lemma_node_entries_count(branches, nb, k);
    lemma_interface_polygon_entries_count(roofs, roofs.len() as int, k);
    lemma_interface_polygon_entries_count(floors, floors.len() as int, k);
    assert(branches.branches@.take(nb) =~= branches.branches@);
    assert(roofs.take(roofs.len() as int) =~= roofs);
    assert(floors.take(floors.len() as int) =~= floors);
    let total = nodes_on_layer(branches.branches@, k) + interface_polygons_on_layer(roofs, k)
        + interface_polygons_on_layer(floors, k);
    assert(entries_at(entries, k).len() == total);
    lemma_support_layers_ordered(entries, n);
    assert forall|i: int|
        0 <= i < out.layers@.len() && (#[trigger] out.layers@[i]).layer_index == k implies out.layers@[i].polygons@.len()
            == total && out.layers@[i].z == layer_heights[k] by {
        lemma_support_layer_is_entries(entries, n, i);
        assert(sl[i].0 == k);
    }
    if total > 0 {
        assert(entries_at(entries, k).len() > 0);
        let i = choose|i: int|
            0 <= i < sl.len() && (#[trigger] sl[i]).0 == k && #[trigger] entries_at(entries, k).len()
                > 0;
        assert(out.layers@[i].layer_index == k);
    }
    if exists|i: int| 0 <= i < out.layers@.len() && (#[trigger] out.layers@[i]).layer_index == k {
        let i = choose|i: int| 0 <= i < out.layers@.len() && (#[trigger] out.layers@[i]).layer_index == k;
        assert(sl[i].1.len() > 0);
        lemma_support_layer_is_entries(entries, n, i);
    }
}

proof fn lemma_layer_polygon_entry<S>(layer: InterfaceLayer<S>, m: int, p: int)
    requires
        0 <= p < m,
    ensures
        layer_polygon_entries(layer, m).len() == m,
        layer_polygon_entries(layer, m)[p] == (layer.layer_index, layer.polygons@[p]@),
    decreases m,
{
    if m > 1 {
        lemma_layer_polygon_entry(layer, m - 1, if p < m - 1 { p } else { 0 });
    } else {
        assert(layer_polygon_entries(layer, 0).len() == 0);
    }
}

proof fn lemma_interface_polygon_entries_has<S>(
    layers: Seq<InterfaceLayer<S>>,
    nl: int,
    j: int,
    p: int,
)
    requires
        0 <= j < nl <= layers.len(),
        0 <= p < layers[j].polygons@.len(),
    ensures
        interface_polygon_entries(layers, nl).contains(
            (layers[j].layer_index, layers[j].polygons@[p]@),
        ),
    decreases nl,
{
    let e = (layers[j].layer_index, layers[j].polygons@[p]@);
    let prev = interface_polygon_entries(layers, nl - 1);
    let mine = layer_polygon_entries(layers[nl - 1], layers[nl - 1].polygons@.len() as int);
    if j < nl - 1 {
        lemma_interface_polygon_entries_has(layers, nl - 1, j, p);
        let t = choose|t: int| 0 <= t < prev.len() && prev[t] == e;
        assert((prev + mine)[t] == e);
    } else {
        lemma_layer_polygon_entry(layers[nl - 1], layers[nl - 1].polygons@.len() as int, p);
        assert((prev + mine)[prev.len() + p] == e);
    }
}

proof fn lemma_branch_node_entry<S>(nodes: Seq<SupportNode<S>>, m: int, j: int)
    requires
        0 <= j < m <= nodes.len(),
    ensures
        branch_node_entries(nodes, m).len() == m,
        branch_node_entries(nodes, m)[j] == (nodes[j].layer_index, node_circle(nodes[j])),
    decreases m,
{
    if m > 1 {
        lemma_branch_node_entry(nodes, m - 1, if j < m - 1 { j } else { 0 });
    } else {
        assert(branch_node_entries(nodes, 0).len() == 0);
    }
}

proof fn lemma_node_entries_has<S>(branches: BranchGenerationResult<S>, nb: int, b: int, j: int)
    requires
        0 <= b < nb <= branches.branches@.len(),
        0 <= j < branches.branches@[b].nodes@.len(),
    ensures
        node_entries(branches, nb).contains(
            (
                branches.branches@[b].nodes@[j].layer_index,
                node_circle(branches.branches@[b].nodes@[j]),
            ),
        ),
    decreases nb,
{
    let node = branches.branches@[b].nodes@[j];
    let e = (node.layer_index, node_circle(node));
    let prev = node_entries(branches, nb - 1);
    let nodes = branches.branches@[nb - 1].nodes@;
    let mine = branch_node_entries(nodes, nodes.len() as int);
    if b < nb - 1 {
        lemma_node_entries_has(branches, nb - 1, b, j);
        let t = choose|t: int| 0 <= t < prev.len() && prev[t] == e;
        assert((prev + mine)[t] == e);
    } else {
        lemma_branch_node_entry(nodes, nodes.len() as int, j);
        assert((prev + mine)[prev.len() + j] == e);
    }
}

/// An entry of a layer that has a height shows up among that output layer's
/// polygons.
proof fn lemma_entry_in_output<S>(
    branches: BranchGenerationResult<S>,
    interface: InterfaceResult<S>,
    layer_heights: Seq<S>,
    out: SupportOutputOwned<S>,
    e: (usize, Seq<Point2D>),
)
    requires
        layers_match(
            out.layers@,
            support_layers(support_entries(branches, interface), layer_heights.len() as int),
            layer_heights,
        ),
        layer_heights.len() <= usize::MAX,
        e.0 < layer_heights.len(),
        support_entries(branches, interface).contains(e),
    ensures
        exists|i: int, m: int|
            0 <= i < out.layers@.len() && (#[trigger] out.layers@[i]).layer_index == e.0 && 0 <= m
                < out.layers@[i].polygons@.len() && (#[trigger] out.layers@[i].polygons@[m])@ == e.1,
{
    let n = layer_heights.len() as int;
    let entries = support_entries(branches, interface);
    let sl = support_layers(entries, n);
    let k = e.0 as int;
    lemma_entries_at_contains(entries, k, e);
    let at = entries_at(entries, k);
    let t = choose|t: int| 0 <= t < at.len() && at[t] == e;
    lemma_support_layers_ordered(entries, n);
    assert(entries_at(entries, k).len() > 0);
    let i = choose|i: int|
        0 <= i < sl.len() && (#[trigger] sl[i]).0 == k && #[trigger] entries_at(entries, k).len() > 0;
    lemma_support_layer_is_entries(entries, n, i);
    assert(sl[i].1[t] == e.1);
    assert(out.layers@[i].polygons@[t]@ == e.1);
}

/// Every polygon of a roof or floor layer whose layer has a height appears
/// among the polygons of that output layer.
pub proof fn lemma_interface_polygon_in_output<S>(
    branches: BranchGenerationResult<S>,
    interface: InterfaceResult<S>,
    layer_heights: Seq<S>,
    out: SupportOutputOwned<S>,
    roof: bool,
    j: int,
    p: int,
)
    requires
        layers_match(
            out.layers@,
            support_layers(support_entries(branches, interface), layer_heights.len() as int),
            layer_heights,
        ),
        layer_heights.len() <= usize::MAX,
        0 <= j < (if roof {
            interface.roof_layers@
        } else {
            interface.floor_layers@
        }).len(),
        (if roof {
            interface.roof_layers@
        } else {
            interface.floor_layers@
        })[j].layer_index < layer_heights.len(),
        0 <= p < (if roof {
            interface.roof_layers@
        } else {
            interface.floor_layers@
        })[j].polygons@.len(),
    ensures
        exists|i: int, m: int|
            0 <= i < out.layers@.len() && (#[trigger] out.layers@[i]).layer_index == (if roof {
                interface.roof_layers@
            } else {
                interface.floor_layers@
            })[j].layer_index && 0 <= m < out.layers@[i].polygons@.len() && (
            #[trigger] out.layers@[i].polygons@[m])@ == (if roof {
                interface.roof_layers@
            } else {
                interface.floor_layers@
            })[j].polygons@[p]@,
{
    let layers = if roof {
        interface.roof_layers@
    } else {
        interface.floor_layers@
    };
    let a = node_entries(branches, branches.branches@.len() as int);
    let r = interface_polygon_entries(interface.roof_layers@, interface.roof_layers@.len() as int);
    let f = interface_polygon_entries(
        interface.floor_layers@,
        interface.floor_layers@.len() as int,
    );
    let e = (layers[j].layer_index, layers[j].polygons@[p]@);
    lemma_interface_polygon_entries_has(layers, layers.len() as int, j, p);
    if roof {
        let t = choose|t: int| 0 <= t < r.len() && r[t] == e;
        assert((a + r + f)[a.len() + t] == e);
    } else {
        let t = choose|t: int| 0 <= t < f.len() && f[t] == e;
        assert((a + r + f)[a.len() + r.len() + t] == e);
    }
    assert(support_entries(branches, interface) == a + r + f);
    lemma_entry_in_output(branches, interface, layer_heights, out, e);
}

/// The circle of every branch node whose layer has a height appears among
/// the polygons of that output layer: the 16-point circle with the node's
/// radius around its position.
pub proof fn lemma_node_circle_in_output<S>(
    branches: BranchGenerationResult<S>,
    interface: InterfaceResult<S>,
    layer_heights: Seq<S>,
    out: SupportOutputOwned<S>,
    b: int,
    j: int,
)
    requires
        layers_match(
            out.layers@,
            support_layers(support_entries(branches, interface), layer_heights.len() as int),
            layer_heights,
        ),
        layer_heights.len() <= usize::MAX,
        0 <= b < branches.branches@.len(),
        0 <= j < branches.branches@[b].nodes@.len(),
        branches.branches@[b].nodes@[j].layer_index < layer_heights.len(),
    ensures
        exists|i: int, m: int|
            0 <= i < out.layers@.len() && (#[trigger] out.layers@[i]).layer_index
                == branches.branches@[b].nodes@[j].layer_index && 0 <= m
                < out.layers@[i].polygons@.len() && (#[trigger] out.layers@[i].polygons@[m])@
                == circle_seq(
                branches.branches@[b].nodes@[j].position,
                branches.branches@[b].nodes@[j].radius as int,
                16,
            ),
{
    let a = node_entries(branches, branches.branches@.len() as int);
    let r = interface_polygon_entries(interface.roof_layers@, interface.roof_layers@.len() as int);
    let f = interface_polygon_entries(
        interface.floor_layers@,
        interface.floor_layers@.len() as int,
    );
    let node = branches.branches@[b].nodes@[j];
    let e = (node.layer_index, node_circle(node));
    lemma_node_entries_has(branches, branches.branches@.len() as int, b, j);
    let t = choose|t: int| 0 <= t < a.len() && a[t] == e;
    assert((a + r + f)[t] == e);
    assert(support_entries(branches, interface) == a + r + f);
    lemma_entry_in_output(branches, interface, layer_heights, out, e);
}

} // verus!
