//! Support tree nodes and branches: contact point placement, branch smoothing.

use vstd::prelude::*;

use smallvec::SmallVec;

use crate::config::ScaledDerivedSettings;
use crate::overhang_detection::{OverhangArea, OverhangResult};
use crate::utils::{closer_than, CoordT, Point2D};

verus! {

/// Indices of the child nodes that merge into a node, held in a
/// `smallvec::SmallVec<[usize; 2]>` that Verus sees only through
/// [`child_index_items`].
#[verifier::external_body]
#[derive(Debug)]
pub struct ChildIndices {
    items: SmallVec<[usize; 2]>,
}

/// The child indices that a [`ChildIndices`] holds, in order.
pub uninterp spec fn child_index_items(v: ChildIndices) -> Seq<usize>;

impl ChildIndices {
    /// Calls `smallvec::SmallVec::new`, which makes a vector that holds no items.
    #[verifier::external_body]
    fn new() -> (v: Self)
        ensures
            child_index_items(v) == Seq::<usize>::empty(),
    {
        ChildIndices { items: SmallVec::new() }
    }
}

impl ChildIndices {
    /// Calls `SmallVec::len`, which gives the number of items held.
    #[verifier::external_body]
    fn items_len(&self) -> (n: usize)
        ensures
            n == child_index_items(*self).len(),
    {
        self.items.len()
    }

    /// Calls `get` on the slice that a `SmallVec` derefs to: the item at `i`,
    /// or `None` past the end.
    #[verifier::external_body]
    fn item_at(&self, i: usize) -> (r: Option<usize>)
        ensures
            r == (if i < child_index_items(*self).len() {
                Some(child_index_items(*self)[i as int])
            } else {
                None
            }),
    {
        self.items.get(i).copied()
    }

    /// Calls `SmallVec::push`, which appends the item. Growing the buffer
    /// panics with "capacity overflow" only when its byte size would pass
    /// `isize::MAX`, which the bound on the length rules out.
    #[verifier::external_body]
    fn push_item(&mut self, value: usize)
        requires
            child_index_items(*old(self)).len() < usize::MAX / 32,
        ensures
            child_index_items(*final(self)) == child_index_items(*old(self)).push(value),
    {
        self.items.push(value)
    }

    /// The number of child indices.
    pub fn len(&self) -> (n: usize)
        ensures
            n == child_index_items(*self).len(),
    {
        self.items_len()
    }

    /// The child index at position `i`, or `None` past the end.
    pub fn get(&self, i: usize) -> (r: Option<usize>)
        ensures
            r == (if i < child_index_items(*self).len() {
                Some(child_index_items(*self)[i as int])
            } else {
                None
            }),
    {
        self.item_at(i)
    }

    /// Append a child index.
    pub fn push(&mut self, value: usize)
        requires
            child_index_items(*old(self)).len() < usize::MAX / 32,
        ensures
            child_index_items(*final(self)) == child_index_items(*old(self)).push(value),
    {
        self.push_item(value)
    }
}

impl Clone for ChildIndices {
    /// Calls `Clone::clone` of `smallvec::SmallVec`, which copies the items in order.
    #[verifier::external_body]
    fn clone(&self) -> (r: Self)
        ensures
            child_index_items(r) == child_index_items(*self),
    {
        ChildIndices { items: self.items.clone() }
    }
}

/// Type of tree node geometry.
#[derive(Debug, Clone, Copy, PartialEq, Eq, Structural)]
pub enum NodeType {
    /// Circular cross-section (default for most branches).
    Circle,
    /// Square cross-section (used at certain junctions).
    Square,
    /// Polygon cross-section (for complex shapes).
    Polygon,
}

impl Default for NodeType {
    fn default() -> (t: Self)
        ensures
            t == NodeType::Circle,
    {
        NodeType::Circle
    }
}

/// A single node in the support tree.
///
/// `S` is the scalar type of heights; the support logic carries heights
/// without computing with them.
#[derive(Debug, Clone)]
pub struct SupportNode<S> {
    /// Unique node identifier within the generation session.
    pub id: u64,
    /// 2D position on the XY plane (scaled coordinates).
    pub position: Point2D,
    /// Z height of this node.
    pub z: S,
    /// Layer index (0 = bottom).
    pub layer_index: usize,
    /// Distance (in layers) from the top contact point to this node.
    pub distance_to_top: u32,
    /// Distance (in mm) from the top contact point to this node.
    pub dist_mm_to_top: S,
    /// Current branch radius at this node (scaled coordinates).
    pub radius: CoordT,
    /// Maximum lateral movement allowed per layer at this node.
    pub max_move_distance: CoordT,
    /// The type of geometry to draw at this node.
    pub node_type: NodeType,
    /// Whether this node should connect to the build plate.
    pub to_buildplate: bool,
    /// Whether this is a sharp tail support node.
    pub is_sharp_tail: bool,
    /// Whether this node needs an extra perimeter wall.
    pub need_extra_wall: bool,
    /// Number of support roof layers below this node.
    pub support_roof_layers_below: u32,
    /// Index of the parent node (in the branch's node list), if any.
    pub parent_index: Option<usize>,
    /// Indices of child nodes that merge into this node.
    pub child_indices: ChildIndices,
}

/// Whether `n` is a fresh contact node with the given identity, place and tip radius.
pub open spec fn is_contact_node<S>(
    n: SupportNode<S>,
    id: u64,
    position: Point2D,
    z: S,
    layer_index: usize,
    tip_radius: CoordT,
) -> bool {
    &&& n.id == id
    &&& n.position == position
    &&& n.z == z
    &&& n.layer_index == layer_index
    &&& n.distance_to_top == 0
    &&& n.radius == tip_radius
    &&& n.max_move_distance == 0
    &&& n.node_type == NodeType::Circle
    &&& n.to_buildplate
    &&& !n.is_sharp_tail
    &&& !n.need_extra_wall
    &&& n.support_roof_layers_below == 0
    &&& n.parent_index == None::<usize>
    &&& child_index_items(n.child_indices) == Seq::<usize>::empty()
}

impl<S> SupportNode<S> {
    /// Create a new contact node at the top of a branch.
    ///
    /// Its distance to the top is zero, in layers and in `S` (`S::default()`).
    pub fn new_contact(
        id: u64,
        position: Point2D,
        z: S,
        layer_index: usize,
        tip_radius: CoordT,
    ) -> (n: Self) where S: Default
        ensures
            is_contact_node(n, id, position, z, layer_index, tip_radius),
            call_ensures(S::default, (), n.dist_mm_to_top),
    {
        SupportNode {
            id,
            position,
            z,
            layer_index,
            distance_to_top: 0,
            dist_mm_to_top: S::default(),
            radius: tip_radius,
            max_move_distance: 0,
            node_type: NodeType::Circle,
            to_buildplate: true,
            is_sharp_tail: false,
            need_extra_wall: false,
            support_roof_layers_below: 0,
            parent_index: None,
            child_indices: ChildIndices::new(),
        }
    }
}

/// A single tree branch from contact point to base.
#[derive(Debug, Clone)]
pub struct Branch<S> {
    /// Nodes in this branch, ordered from top (contact) to bottom (base).
    pub nodes: Vec<SupportNode<S>>,
    /// Whether this branch successfully reaches the build plate.
    pub reaches_buildplate: bool,
}

/// Result of the branch generation phase.
#[derive(Debug)]
pub struct BranchGenerationResult<S> {
    /// All generated branches.
    pub branches: Vec<Branch<S>>,
    /// Total number of nodes across all branches.
    pub total_nodes: usize,
}

/// Rust's integer division by three, which rounds toward zero.
pub open spec fn third_toward_zero(s: int) -> int {
    if s >= 0 {
        s / 3
    } else {
        -((-s) / 3)
    }
}

/// Whether `v` fits in an `i64`.
pub open spec fn fits_i64(v: int) -> bool {
    i64::MIN <= v <= i64::MAX
}

/// The positions of a sequence of nodes.
pub open spec fn positions_of<S>(nodes: Seq<SupportNode<S>>) -> Seq<Point2D> {
    nodes.map_values(|n: SupportNode<S>| n.position)
}

/// Whether the three-point sums of every interior position fit in an `i64`,
/// as they are added left to right.
pub open spec fn smoothing_fits(ps: Seq<Point2D>) -> bool {
    forall|i: int|
        1 <= i < ps.len() - 1 ==> {
            &&& fits_i64(ps[i - 1].x + ps[i].x)
            &&& fits_i64(ps[i - 1].x + ps[i].x + #[trigger] ps[i + 1].x)
            &&& fits_i64(ps[i - 1].y + ps[i].y)
            &&& fits_i64(ps[i - 1].y + ps[i].y + ps[i + 1].y)
        }
}

/// Position `i` after smoothing: endpoints stay, every interior position
/// becomes the average of itself and its two neighbours, rounded toward zero.
pub open spec fn smoothed_position(ps: Seq<Point2D>, i: int) -> Point2D {
    if i == 0 || i == ps.len() - 1 {
        ps[i]
    } else {
        Point2D {
            x: third_toward_zero(ps[i - 1].x + ps[i].x + ps[i + 1].x) as CoordT,
            y: third_toward_zero(ps[i - 1].y + ps[i].y + ps[i + 1].y) as CoordT,
        }
    }
}

/// Node `i` of a branch after smoothing: only its position changes.
pub open spec fn smoothed_node<S>(nodes: Seq<SupportNode<S>>, i: int) -> SupportNode<S> {
    SupportNode { position: smoothed_position(positions_of(nodes), i), ..nodes[i] }
}

/// Smooth the positions of nodes in a branch for cleaner paths.
///
/// Applies a three-point moving average to the XY positions of the interior
/// nodes, each computed from the positions before smoothing; branches with
/// fewer than three nodes are left unchanged.
pub fn smooth_branch<S>(branch: &mut Branch<S>)
    requires
        old(branch).nodes@.len() >= 3 ==> smoothing_fits(positions_of(old(branch).nodes@)),
    ensures
        final(branch).reaches_buildplate == old(branch).reaches_buildplate,
        final(branch).nodes@.len() == old(branch).nodes@.len(),
        old(branch).nodes@.len() < 3 ==> final(branch).nodes@ == old(branch).nodes@,
        old(branch).nodes@.len() >= 3 ==> forall|i: int|
            0 <= i < old(branch).nodes@.len() ==> #[trigger] final(branch).nodes@[i]
                == smoothed_node(old(branch).nodes@, i),
{
    let n = branch.nodes.len();
    if n < 3 {
        return;
    }
    let ghost old_nodes = branch.nodes@;
    let ghost ps = positions_of(old_nodes);
    let mut positions: Vec<Point2D> = Vec::new();
    let mut k: usize = 0;
    while k < n
        invariant
            n == branch.nodes@.len(),
            branch.nodes@ == old_nodes,
            ps == positions_of(old_nodes),
            0 <= k <= n,
            positions@ == ps.take(k as int),
        decreases n - k,
    {
        positions.push(branch.nodes[k].position);
        assert(positions@ =~= ps.take(k + 1));
        k = k + 1;
    }
    assert(positions@ =~= ps);
    let mut i: usize = 1;
    while i < n - 1
        invariant
            n >= 3,
            n == branch.nodes@.len(),
            old_nodes.len() == n,
            ps == positions_of(old_nodes),
            positions@ == ps,
            smoothing_fits(ps),
            1 <= i <= n - 1,
            branch.reaches_buildplate == old(branch).reaches_buildplate,
            forall|j: int| 1 <= j < i ==> #[trigger] branch.nodes@[j] == smoothed_node(old_nodes, j),
            forall|j: int|
                (j == 0 || i <= j < n) ==> #[trigger] branch.nodes@[j] == old_nodes[j],
        decreases n - 1 - i,
    {
        let prev = positions[i - 1];
        let curr = positions[i];
        let next = positions[i + 1];
        assert(fits_i64(ps[i - 1].x + ps[i as int].x + ps[i + 1].x));
        let p = Point2D::new((prev.x + curr.x + next.x) / 3, (prev.y + curr.y + next.y) / 3);
        branch.nodes[i].position = p;
        assert(branch.nodes@[i as int] == smoothed_node(old_nodes, i as int));
        i = i + 1;
    }
    assert forall|j: int| 0 <= j < n implies #[trigger] branch.nodes@[j] == smoothed_node(
        old_nodes,
        j,
    ) by {
        if j == 0 || j == n - 1 {
            assert(branch.nodes@[j] == old_nodes[j]);
            assert(smoothed_node(old_nodes, j) =~= old_nodes[j]);
        }
    }
}

/// Smoothing a branch of at least three nodes moves every interior node
/// `1 <= i <= n - 2` to the average of the positions before smoothing of
/// itself and its two neighbours, each coordinate's sum divided by three
/// with truncation toward zero; the first and last nodes keep their
/// positions, and nothing but the positions changes.
pub proof fn lemma_smoothing_averages_interior<S>(before: Branch<S>, after: Branch<S>)
    requires
        after.nodes@.len() == before.nodes@.len(),
        before.nodes@.len() >= 3,
        forall|i: int|
            0 <= i < before.nodes@.len() ==> #[trigger] after.nodes@[i] == smoothed_node(
                before.nodes@,
                i,
            ),
    ensures
        forall|i: int|
            1 <= i <= before.nodes@.len() - 2 ==> ({
                let sx = before.nodes@[i - 1].position.x + before.nodes@[i].position.x
                    + before.nodes@[i + 1].position.x;
                let sy = before.nodes@[i - 1].position.y + before.nodes@[i].position.y
                    + before.nodes@[i + 1].position.y;
                &&& (sx >= 0 ==> (#[trigger] after.nodes@[i]).position.x == sx / 3)
                &&& (sx < 0 ==> after.nodes@[i].position.x == -((-sx) / 3))
                &&& (sy >= 0 ==> after.nodes@[i].position.y == sy / 3)
                &&& (sy < 0 ==> after.nodes@[i].position.y == -((-sy) / 3))
            }),
        after.nodes@[0].position == before.nodes@[0].position,
        after.nodes@.last().position == before.nodes@.last().position,
        forall|i: int|
            0 <= i < before.nodes@.len() ==> (SupportNode {
                position: before.nodes@[i].position,
                ..#[trigger] after.nodes@[i]
            }) == before.nodes@[i],
{
    let n = before.nodes@.len() as int;
    assert(after.nodes@[0] == smoothed_node(before.nodes@, 0));
    assert(after.nodes@[n - 1] == smoothed_node(before.nodes@, n - 1));
    assert forall|i: int| 1 <= i <= n - 2 implies ({
        let sx = before.nodes@[i - 1].position.x + before.nodes@[i].position.x
            + before.nodes@[i + 1].position.x;
        let sy = before.nodes@[i - 1].position.y + before.nodes@[i].position.y
            + before.nodes@[i + 1].position.y;
        &&& (sx >= 0 ==> (#[trigger] after.nodes@[i]).position.x == sx / 3)
        &&& (sx < 0 ==> after.nodes@[i].position.x == -((-sx) / 3))
        &&& (sy >= 0 ==> after.nodes@[i].position.y == sy / 3)
        &&& (sy < 0 ==> after.nodes@[i].position.y == -((-sy) / 3))
    }) by {
        assert(after.nodes@[i] == smoothed_node(before.nodes@, i));
        let ps = positions_of(before.nodes@);
        assert(ps[i - 1] == before.nodes@[i - 1].position);
        assert(ps[i] == before.nodes@[i].position);
        assert(ps[i + 1] == before.nodes@[i + 1].position);
    }
    assert forall|i: int| 0 <= i < n implies (SupportNode {
        position: before.nodes@[i].position,
        ..#[trigger] after.nodes@[i]
    }) == before.nodes@[i] by {
        assert(after.nodes@[i] == smoothed_node(before.nodes@, i));
    }
}

/// The candidate contact points of the areas of one layer, tagged with the
/// layer: each area's boundary points in order, area after area.
pub open spec fn area_candidates<S>(areas: Seq<OverhangArea<S>>, layer: usize) -> Seq<
    (usize, Point2D),
>
    decreases areas.len(),
{
    if areas.len() == 0 {
        Seq::empty()
    } else {
        area_candidates(areas.drop_last(), layer) + areas.last().boundary@.map_values(
            |p: Point2D| (layer, p),
        )
    }
}

/// The candidate contact points of the first `n` layers, layer after layer.
pub open spec fn contact_candidates<S>(layers: Seq<Vec<OverhangArea<S>>>, n: int) -> Seq<
    (usize, Point2D),
>
    decreases n,
{
    if n <= 0 {
        Seq::empty()
    } else {
        contact_candidates(layers, n - 1) + area_candidates(layers[n - 1]@, (n - 1) as usize)
    }
}

/// Whether `point` on `layer` lies closer than `spacing` to an accepted point of its layer.
pub open spec fn too_close(
    accepted: Seq<(usize, Point2D)>,
    layer: usize,
    point: Point2D,
    spacing: int,
) -> bool {
    exists|j: int|
        0 <= j < accepted.len() && accepted[j].0 == layer && #[trigger] closer_than(
            accepted[j].1,
            point,
            spacing,
        )
}

/// The candidates that greedy selection accepts, in order: a candidate is
/// accepted unless it lies closer than `spacing` to an earlier accepted point
/// of the same layer.
pub open spec fn greedy_contacts(candidates: Seq<(usize, Point2D)>, spacing: int) -> Seq<
    (usize, Point2D),
>
    decreases candidates.len(),
{
    if candidates.len() == 0 {
        Seq::empty()
    } else {
        let prev = greedy_contacts(candidates.drop_last(), spacing);
        if too_close(prev, candidates.last().0, candidates.last().1, spacing) {
            prev
        } else {
            prev.push(candidates.last())
        }
    }
}

/// The points that `generate_contact_points` places, with their layers.
pub open spec fn selected_contacts<S>(
    overhangs: OverhangResult<S>,
    spacing: int,
    layer_count: int,
) -> Seq<(usize, Point2D)> {
    let n = if overhangs.layers@.len() < layer_count {
        overhangs.layers@.len() as int
    } else {
        layer_count
    };
    greedy_contacts(contact_candidates(overhangs.layers@, n), spacing)
}

/// Whether `nodes` are the contact nodes made for the selected points: node `i`
/// has id `i`, the point and layer of selection `i`, that layer's height and the
/// tip radius.
pub open spec fn contact_nodes_for<S>(
    nodes: Seq<SupportNode<S>>,
    selected: Seq<(usize, Point2D)>,
    layer_heights: Seq<S>,
    tip_radius: CoordT,
) -> bool {
    &&& nodes.len() == selected.len()
    &&& forall|i: int| 0 <= i < selected.len() ==> #[trigger] selected[i].0 < layer_heights.len()
    &&& forall|i: int|
        0 <= i < nodes.len() ==> is_contact_node(
            #[trigger] nodes[i],
            i as u64,
            selected[i].1,
            layer_heights[selected[i].0 as int],
            selected[i].0,
            tip_radius,
        )
}

/// Whether some node of `nodes` on `layer` lies closer than `spacing` to `point`.
fn near_existing_contact<S>(
    nodes: &Vec<SupportNode<S>>,
    layer: usize,
    point: &Point2D,
    spacing: CoordT,
    Ghost(selected): Ghost<Seq<(usize, Point2D)>>,
    Ghost(layer_heights): Ghost<Seq<S>>,
    Ghost(tip_radius): Ghost<CoordT>,
) -> (r: bool)
    requires
        contact_nodes_for(nodes@, selected, layer_heights, tip_radius),
    ensures
        r == too_close(selected, layer, *point, spacing as int),
{
    let mut j: usize = 0;
    while j < nodes.len()
        invariant
            0 <= j <= nodes@.len(),
            contact_nodes_for(nodes@, selected, layer_heights, tip_radius),
            forall|k: int|
                0 <= k < j ==> !(selected[k].0 == layer && #[trigger] closer_than(
                    selected[k].1,
                    *point,
                    spacing as int,
                )),
        decreases nodes@.len() - j,
    {
        let n = &nodes[j];
        if n.layer_index == layer && n.position.is_closer_than(point, spacing) {
            assert(is_contact_node(
                nodes@[j as int],
                j as u64,
                selected[j as int].1,
                layer_heights[selected[j as int].0 as int],
                selected[j as int].0,
                tip_radius,
            ));
            assert(closer_than(selected[j as int].1, *point, spacing as int));
            return true;
        }
        assert(is_contact_node(
            nodes@[j as int],
            j as u64,
            selected[j as int].1,
            layer_heights[selected[j as int].0 as int],
            selected[j as int].0,
            tip_radius,
        ));
        j = j + 1;
    }
    false
}

/// Generate contact points from overhang areas.
///
/// Walks the boundary points of the overhang areas layer by layer (over the
/// layers that have both overhangs and a height), area by area, and places a
/// contact node at each point unless it lies closer than the branch distance
/// to a node already placed on the same layer. Nodes are numbered in the order
/// they are placed and get the layer's height and the tip radius.
pub fn generate_contact_points<S: Copy + Default>(
    overhangs: &OverhangResult<S>,
    config: &crate::config::ScaledSupportConfig,
    settings: &ScaledDerivedSettings,
    layer_heights: &[S],
) -> (nodes: Vec<SupportNode<S>>)
    ensures
        contact_nodes_for(
            nodes@,
            selected_contacts(
                *overhangs,
                config.support_tree_branch_distance as int,
                layer_heights@.len() as int,
            ),
            layer_heights@,
            settings.min_radius,
        ),
{
    let mut nodes: Vec<SupportNode<S>> = Vec::new();
    let branch_distance = config.support_tree_branch_distance;
    let tip_radius = settings.min_radius;
    let layers = &overhangs.layers;
    let n_layers = if layers.len() < layer_heights.len() {
        layers.len()
    } else {
        layer_heights.len()
    };
    let ghost spacing = branch_distance as int;
    let ghost heights = layer_heights@;
    let ghost mut processed: Seq<(usize, Point2D)> = Seq::empty();
    let mut layer_idx: usize = 0;
    while layer_idx < n_layers
        invariant
            n_layers <= layers@.len(),
            n_layers <= layer_heights@.len(),
            heights == layer_heights@,
            spacing == branch_distance as int,
            0 <= layer_idx <= n_layers,
            processed == contact_candidates(layers@, layer_idx as int),
            contact_nodes_for(nodes@, greedy_contacts(processed, spacing), heights, tip_radius),
        decreases n_layers - layer_idx,
    {
        let z = layer_heights[layer_idx];
        let areas = &layers[layer_idx];
        let ghost layer_start = processed;
        let mut a: usize = 0;
        while a < areas.len()
            invariant
                n_layers <= layers@.len(),
                n_layers <= layer_heights@.len(),
                heights == layer_heights@,
                spacing == branch_distance as int,
                0 <= layer_idx < n_layers,
                *areas == layers@[layer_idx as int],
                z == heights[layer_idx as int],
                layer_start == contact_candidates(layers@, layer_idx as int),
                0 <= a <= areas@.len(),
                processed == layer_start + area_candidates(areas@.take(a as int), layer_idx),
                contact_nodes_for(nodes@, greedy_contacts(processed, spacing), heights, tip_radius),
            decreases areas@.len() - a,
        {
            let boundary = &areas[a].boundary;
            let ghost area_start = processed;
            let ghost tagged = boundary@.map_values(|p: Point2D| (layer_idx, p));
            let mut p: usize = 0;
            while p < boundary.len()
                invariant
                    heights == layer_heights@,
                    spacing == branch_distance as int,
                    0 <= layer_idx < n_layers,
                    n_layers <= layer_heights@.len(),
                    z == heights[layer_idx as int],
                    tagged == boundary@.map_values(|q: Point2D| (layer_idx, q)),
                    0 <= p <= boundary@.len(),
                    processed == area_start + tagged.take(p as int),
                    contact_nodes_for(
                        nodes@,
                        greedy_contacts(processed, spacing),
                        heights,
                        tip_radius,
                    ),
                decreases boundary@.len() - p,
            {
                let point = boundary[p];
                let ghost selected = greedy_contacts(processed, spacing);
                let close = near_existing_contact(
                    &nodes,
                    layer_idx,
                    &point,
                    branch_distance,
                    Ghost(selected),
                    Ghost(heights),
                    Ghost(tip_radius),
                );
                proof {
                    let c = (layer_idx, point);
                    assert(processed.push(c).drop_last() =~= processed);
                    assert(processed.push(c).last() == c);
                    assert(area_start + tagged.take(p + 1) =~= processed.push(c));
                    processed = processed.push(c);
                    if close {
                        assert(greedy_contacts(processed, spacing) == selected);
                    } else {
                        assert(greedy_contacts(processed, spacing) == selected.push(c));
                    }
                }
                if !close {
                    let id = nodes.len() as u64;
                    let node = SupportNode::new_contact(id, point, z, layer_idx, tip_radius);
                    let ghost before = nodes@;
                    nodes.push(node);
                    proof {
                        let sel = greedy_contacts(processed, spacing);
                        assert(sel == selected.push((layer_idx, point)));
                        assert forall|i: int| 0 <= i < nodes@.len() implies is_contact_node(
                            #[trigger] nodes@[i],
                            i as u64,
                            sel[i].1,
                            heights[sel[i].0 as int],
                            sel[i].0,
                            tip_radius,
                        ) by {
                            if i < nodes@.len() - 1 {
                                assert(nodes@[i] == before[i]);
                                assert(sel[i] == selected[i]);
                            }
                        }
                    }
                }
                p = p + 1;
            }
            proof {
                assert(tagged.take(boundary@.len() as int) =~= tagged);
                assert(tagged =~= areas@[a as int].boundary@.map_values(
                    |q: Point2D| (layer_idx, q),
                ));
                assert(areas@.take(a + 1).drop_last() =~= areas@.take(a as int));
                assert(areas@.take(a + 1).last() == areas@[a as int]);
                assert(layer_start + area_candidates(areas@.take(a + 1), layer_idx) =~= area_start
                    + tagged);
            }
            a = a + 1;
        }
        proof {
            assert(areas@.take(areas@.len() as int) =~= areas@);
        }
        layer_idx = layer_idx + 1;
    }
    nodes
}

/// Two contact points that greedy selection accepts on the same layer are never
/// closer to each other than the spacing.
pub proof fn lemma_contacts_keep_spacing(candidates: Seq<(usize, Point2D)>, spacing: int)
    ensures
        forall|i: int, j: int|
            0 <= i < j < greedy_contacts(candidates, spacing).len() && greedy_contacts(
                candidates,
                spacing,
            )[i].0 == greedy_contacts(candidates, spacing)[j].0 ==> !closer_than(
                #[trigger] greedy_contacts(candidates, spacing)[i].1,
                #[trigger] greedy_contacts(candidates, spacing)[j].1,
                spacing,
            ),
    decreases candidates.len(),
{
    if candidates.len() > 0 {
        let prev_c = candidates.drop_last();
        lemma_contacts_keep_spacing(prev_c, spacing);
        let prev = greedy_contacts(prev_c, spacing);
        let sel = greedy_contacts(candidates, spacing);
        let c = candidates.last();
        assert forall|i: int, j: int|
            0 <= i < j < sel.len() && sel[i].0 == sel[j].0 implies !closer_than(
            #[trigger] sel[i].1,
            #[trigger] sel[j].1,
            spacing,
        ) by {
            if j < prev.len() {
                assert(sel[i] == prev[i] && sel[j] == prev[j]);
            } else {
                assert(sel[i] == prev[i] && sel[j] == c);
                assert(!too_close(prev, c.0, c.1, spacing));
                assert(!(prev[i].0 == c.0 && closer_than(prev[i].1, c.1, spacing)));
            }
        }
    }
}

/// Every candidate point is either accepted or lies closer than the spacing to
/// an accepted point of its layer: greedy selection leaves no candidate uncovered.
pub proof fn lemma_contacts_cover_candidates(candidates: Seq<(usize, Point2D)>, spacing: int)
    ensures
        forall|m: int|
            0 <= m < candidates.len() ==> greedy_contacts(candidates, spacing).contains(
                #[trigger] candidates[m],
            ) || too_close(
                greedy_contacts(candidates, spacing),
                candidates[m].0,
                candidates[m].1,
                spacing,
            ),
    decreases candidates.len(),
{
    if candidates.len() > 0 {
        let prev_c = candidates.drop_last();
        lemma_contacts_cover_candidates(prev_c, spacing);
        let prev = greedy_contacts(prev_c, spacing);
        let sel = greedy_contacts(candidates, spacing);
        assert forall|m: int| 0 <= m < candidates.len() implies sel.contains(
            #[trigger] candidates[m],
        ) || too_close(sel, candidates[m].0, candidates[m].1, spacing) by {
            if m < candidates.len() - 1 {
                assert(candidates[m] == prev_c[m]);
                if prev.contains(prev_c[m]) {
                    let k = choose|k: int| 0 <= k < prev.len() && prev[k] == prev_c[m];
                    assert(sel[k] == prev[k]);
                } else {
                    let k = choose|k: int|
                        0 <= k < prev.len() && prev[k].0 == prev_c[m].0 && #[trigger] closer_than(
                            prev[k].1,
                            prev_c[m].1,
                            spacing,
                        );
                    assert(sel[k] == prev[k]);
                }
            } else if !too_close(prev, candidates.last().0, candidates.last().1, spacing) {
                assert(sel[sel.len() - 1] == candidates[m]);
            } else {
                let k = choose|k: int|
                    0 <= k < prev.len() && prev[k].0 == candidates.last().0 && #[trigger] closer_than(
                        prev[k].1,
                        candidates.last().1,
                        spacing,
                    );
                assert(sel[k] == prev[k]);
            }
        }
    }
}

/// Greedy selection accepts only candidates.
pub proof fn lemma_contacts_are_candidates(candidates: Seq<(usize, Point2D)>, spacing: int)
    ensures
        forall|i: int|
            0 <= i < greedy_contacts(candidates, spacing).len() ==> candidates.contains(
                #[trigger] greedy_contacts(candidates, spacing)[i],
            ),
    decreases candidates.len(),
{
    if candidates.len() > 0 {
        let prev_c = candidates.drop_last();
        lemma_contacts_are_candidates(prev_c, spacing);
        let sel = greedy_contacts(candidates, spacing);
        assert forall|i: int| 0 <= i < sel.len() implies candidates.contains(#[trigger] sel[i]) by {
            if i < greedy_contacts(prev_c, spacing).len() {
                let k = choose|k: int| 0 <= k < prev_c.len() && prev_c[k] == sel[i];
                assert(candidates[k] == prev_c[k]);
            } else {
                assert(candidates[candidates.len() - 1] == sel[i]);
            }
        }
    }
}

/// Every boundary point of an area of a layer below `n` is a candidate.
proof fn lemma_boundary_point_is_candidate<S>(
    layers: Seq<Vec<OverhangArea<S>>>,
    n: int,
    l: int,
    a: int,
    q: int,
)
    requires
        0 <= l < n <= layers.len(),
        layers.len() <= usize::MAX,
        0 <= a < layers[l]@.len(),
        0 <= q < layers[l]@[a].boundary@.len(),
    ensures
        contact_candidates(layers, n).contains((l as usize, layers[l]@[a].boundary@[q])),
    decreases n,
{
    let c = (l as usize, layers[l]@[a].boundary@[q]);
    if l < n - 1 {
        lemma_boundary_point_is_candidate(layers, n - 1, l, a, q);
        let prev = contact_candidates(layers, n - 1);
        let k = choose|k: int| 0 <= k < prev.len() && prev[k] == c;
        assert(contact_candidates(layers, n)[k] == c);
    } else {
        lemma_area_point_is_candidate(layers[l]@, l as usize, a, q);
        let prev = contact_candidates(layers, n - 1);
        let here = area_candidates(layers[l]@, l as usize);
        let k = choose|k: int| 0 <= k < here.len() && here[k] == c;
        assert(contact_candidates(layers, n)[prev.len() + k] == c);
    }
}

/// Every boundary point of an area is among that layer's candidates.
proof fn lemma_area_point_is_candidate<S>(areas: Seq<OverhangArea<S>>, layer: usize, a: int, q: int)
    requires
        0 <= a < areas.len(),
        0 <= q < areas[a].boundary@.len(),
    ensures
        area_candidates(areas, layer).contains((layer, areas[a].boundary@[q])),
    decreases areas.len(),
{
    let c = (layer, areas[a].boundary@[q]);
    let prev = area_candidates(areas.drop_last(), layer);
    if a < areas.len() - 1 {
        lemma_area_point_is_candidate(areas.drop_last(), layer, a, q);
        let k = choose|k: int| 0 <= k < prev.len() && prev[k] == c;
        assert(area_candidates(areas, layer)[k] == c);
    } else {
        assert(area_candidates(areas, layer)[prev.len() + q] == c);
    }
}

/// Every candidate is a boundary point of an area of its layer, below `n`.
proof fn lemma_candidate_is_boundary_point<S>(
    layers: Seq<Vec<OverhangArea<S>>>,
    n: int,
    c: (usize, Point2D),
)
    requires
        0 <= n <= layers.len(),
        layers.len() <= usize::MAX,
        contact_candidates(layers, n).contains(c),
    ensures
        exists|a: int, q: int|
            0 <= c.0 < n && 0 <= a < layers[c.0 as int]@.len() && 0 <= q
                < layers[c.0 as int]@[a].boundary@.len() && #[trigger] layers[c.0 as int]@[a].boundary@[q]
                == c.1,
    decreases n,
{
    let prev = contact_candidates(layers, n - 1);
    let here = area_candidates(layers[n - 1]@, (n - 1) as usize);
    let k = choose|k: int| 0 <= k < contact_candidates(layers, n).len() && contact_candidates(layers, n)[k] == c;
    if k < prev.len() {
        assert(prev[k] == c);
        lemma_candidate_is_boundary_point(layers, n - 1, c);
    } else {
        assert(here[k - prev.len()] == c);
        lemma_area_candidate_is_boundary_point(layers[n - 1]@, (n - 1) as usize, c);
    }
}

/// Every candidate of a layer's areas is a boundary point of one of them.
proof fn lemma_area_candidate_is_boundary_point<S>(
    areas: Seq<OverhangArea<S>>,
    layer: usize,
    c: (usize, Point2D),
)
    requires
        area_candidates(areas, layer).contains(c),
    ensures
        c.0 == layer,
        exists|a: int, q: int|
            0 <= a < areas.len() && 0 <= q < areas[a].boundary@.len() && #[trigger] areas[a].boundary@[q]
                == c.1,
    decreases areas.len(),
{
    let all = area_candidates(areas, layer);
    let prev = area_candidates(areas.drop_last(), layer);
    let k = choose|k: int| 0 <= k < all.len() && all[k] == c;
    if k < prev.len() {
        assert(prev[k] == c);
        lemma_area_candidate_is_boundary_point(areas.drop_last(), layer, c);
        let (a, q) = choose|a: int, q: int|
            0 <= a < areas.drop_last().len() && 0 <= q < areas.drop_last()[a].boundary@.len()
                && #[trigger] areas.drop_last()[a].boundary@[q] == c.1;
        assert(areas[a] == areas.drop_last()[a]);
        assert(areas[a].boundary@[q] == c.1);
    } else {
        let q = k - prev.len();
        assert(areas[areas.len() - 1].boundary@[q] == c.1);
    }
}

/// The contact nodes keep the branch distance: two nodes on the same layer
/// are at least `support_tree_branch_distance` apart; and every node sits on
/// a boundary point of an overhang area of its layer, with that layer's
/// height. (That no boundary point is left uncovered is
/// `lemma_contact_points_cover`.)
pub proof fn lemma_contact_points_spacing<S>(
    nodes: Seq<SupportNode<S>>,
    overhangs: OverhangResult<S>,
    config: crate::config::ScaledSupportConfig,
    layer_heights: Seq<S>,
    tip_radius: CoordT,
)
    requires
        overhangs.layers@.len() <= usize::MAX,
        contact_nodes_for(
            nodes,
            selected_contacts(
                overhangs,
                config.support_tree_branch_distance as int,
                layer_heights.len() as int,
            ),
            layer_heights,
            tip_radius,
        ),
    ensures
        forall|i: int, j: int|
            0 <= i < j < nodes.len() && (#[trigger] nodes[i]).layer_index == (
            #[trigger] nodes[j]).layer_index ==> config.support_tree_branch_distance <= 0 || (
            nodes[i].position.x - nodes[j].position.x) * (nodes[i].position.x - nodes[j].position.x)
                + (nodes[i].position.y - nodes[j].position.y) * (nodes[i].position.y
                - nodes[j].position.y) >= config.support_tree_branch_distance
                * config.support_tree_branch_distance,
        forall|i: int|
            0 <= i < nodes.len() ==> (#[trigger] nodes[i]).layer_index < overhangs.layers@.len()
                && nodes[i].layer_index < layer_heights.len() && nodes[i].z
                == layer_heights[nodes[i].layer_index as int] && exists|a: int, q: int|
                0 <= a < overhangs.layers@[nodes[i].layer_index as int]@.len() && 0 <= q
                    < overhangs.layers@[nodes[i].layer_index as int]@[a].boundary@.len()
                    && #[trigger] overhangs.layers@[nodes[i].layer_index as int]@[a].boundary@[q]
                    == nodes[i].position,
{
    let d = config.support_tree_branch_distance as int;
    let n = if overhangs.layers@.len() < layer_heights.len() {
        overhangs.layers@.len() as int
    } else {
        layer_heights.len() as int
    };
    let cands = contact_candidates(overhangs.layers@, n);
    let sel = greedy_contacts(cands, d);
    assert(sel == selected_contacts(overhangs, d, layer_heights.len() as int));
    lemma_contacts_keep_spacing(cands, d);
    lemma_contacts_cover_candidates(cands, d);
    lemma_contacts_are_candidates(cands, d);
    assert forall|i: int, j: int|
        0 <= i < j < nodes.len() && (#[trigger] nodes[i]).layer_index == (
        #[trigger] nodes[j]).layer_index implies d <= 0 || (nodes[i].position.x
        - nodes[j].position.x) * (nodes[i].position.x - nodes[j].position.x) + (nodes[i].position.y
        - nodes[j].position.y) * (nodes[i].position.y - nodes[j].position.y) >= d * d by {
        assert(is_contact_node(nodes[i], i as u64, sel[i].1, layer_heights[sel[i].0 as int], sel[i].0, tip_radius));
        assert(is_contact_node(nodes[j], j as u64, sel[j].1, layer_heights[sel[j].0 as int], sel[j].0, tip_radius));
        assert(!closer_than(sel[i].1, sel[j].1, d));
    }
    assert forall|i: int| 0 <= i < nodes.len() implies (#[trigger] nodes[i]).layer_index
        < overhangs.layers@.len() && nodes[i].layer_index < layer_heights.len() && nodes[i].z
        == layer_heights[nodes[i].layer_index as int] && exists|a: int, q: int|
        0 <= a < overhangs.layers@[nodes[i].layer_index as int]@.len() && 0 <= q
            < overhangs.layers@[nodes[i].layer_index as int]@[a].boundary@.len()
            && #[trigger] overhangs.layers@[nodes[i].layer_index as int]@[a].boundary@[q]
            == nodes[i].position by {
        assert(is_contact_node(
            nodes[i],
            i as u64,
            sel[i].1,
            layer_heights[sel[i].0 as int],
            sel[i].0,
            tip_radius,
        ));
        assert(cands.contains(sel[i]));
        lemma_candidate_is_boundary_point(overhangs.layers@, n, sel[i]);
    }
}

/// Greedy placement leaves no boundary point uncovered: a boundary point `q`
/// of overhang area `a` on layer `l`, where that layer has a height, is the
/// position of a contact node of layer `l` or lies closer than
/// `support_tree_branch_distance` to one.
pub proof fn lemma_contact_points_cover<S>(
    nodes: Seq<SupportNode<S>>,
    overhangs: OverhangResult<S>,
    config: crate::config::ScaledSupportConfig,
    layer_heights: Seq<S>,
    tip_radius: CoordT,
    l: int,
    a: int,
    q: int,
)
    requires
        overhangs.layers@.len() <= usize::MAX,
        contact_nodes_for(
            nodes,
            selected_contacts(
                overhangs,
                config.support_tree_branch_distance as int,
                layer_heights.len() as int,
            ),
            layer_heights,
            tip_radius,
        ),
        0 <= l < overhangs.layers@.len(),
        l < layer_heights.len(),
        0 <= a < overhangs.layers@[l]@.len(),
        0 <= q < overhangs.layers@[l]@[a].boundary@.len(),
    ensures
        exists|i: int|
            0 <= i < nodes.len() && (#[trigger] nodes[i]).layer_index == l && (nodes[i].position
                == overhangs.layers@[l]@[a].boundary@[q] || (config.support_tree_branch_distance
                > 0 && (nodes[i].position.x - overhangs.layers@[l]@[a].boundary@[q].x) * (
            nodes[i].position.x - overhangs.layers@[l]@[a].boundary@[q].x) + (nodes[i].position.y
                - overhangs.layers@[l]@[a].boundary@[q].y) * (nodes[i].position.y
                - overhangs.layers@[l]@[a].boundary@[q].y) < config.support_tree_branch_distance
                * config.support_tree_branch_distance)),
{
    let d = config.support_tree_branch_distance as int;
    let n = if overhangs.layers@.len() < layer_heights.len() {
        overhangs.layers@.len() as int
    } else {
        layer_heights.len() as int
    };
    let cands = contact_candidates(overhangs.layers@, n);
    let sel = greedy_contacts(cands, d);
    assert(sel == selected_contacts(overhangs, d, layer_heights.len() as int));
    lemma_contacts_cover_candidates(cands, d);
    let p = overhangs.layers@[l]@[a].boundary@[q];
    let c = (l as usize, p);
    lemma_boundary_point_is_candidate(overhangs.layers@, n, l, a, q);
    let m = choose|m: int| 0 <= m < cands.len() && cands[m] == c;
    assert(cands[m] == c);
    if sel.contains(c) {
        let k = choose|k: int| 0 <= k < sel.len() && sel[k] == c;
        assert(is_contact_node(
            nodes[k],
            k as u64,
            sel[k].1,
            layer_heights[sel[k].0 as int],
            sel[k].0,
            tip_radius,
        ));
        assert(nodes[k].position == p);
        assert(nodes[k].layer_index == l);
    } else {
        assert(too_close(sel, c.0, c.1, d));
        let k = choose|k: int|
            0 <= k < sel.len() && sel[k].0 == c.0 && #[trigger] closer_than(sel[k].1, c.1, d);
        assert(is_contact_node(
            nodes[k],
            k as u64,
            sel[k].1,
            layer_heights[sel[k].0 as int],
            sel[k].0,
            tip_radius,
        ));
        assert(closer_than(nodes[k].position, p, d));
        assert(nodes[k].layer_index == l);
    }
}

/// Where a branch passes through one layer below its contact point, as the
/// descent worked it out: position, height, distance travelled from the top
/// (in `S`), radius and the move allowed on that layer.
#[derive(Debug, Clone, Copy)]
pub struct DropStep<S> {
    /// 2D position on the layer (scaled coordinates).
    pub position: Point2D,
    /// Z height of the layer.
    pub z: S,
    /// Distance from the top contact point to this layer, in `S`.
    pub dist_mm_to_top: S,
    /// Branch radius on this layer (scaled coordinates).
    pub radius: CoordT,
    /// Maximum lateral movement allowed on this layer.
    pub max_move_distance: CoordT,
}

/// Whether `a` and `b` are the same node, children included.
pub open spec fn same_node<S>(a: SupportNode<S>, b: SupportNode<S>) -> bool {
    &&& SupportNode { child_indices: b.child_indices, ..a } == b
    &&& child_index_items(a.child_indices) == child_index_items(b.child_indices)
}

/// Whether `n` is the node that a descent puts `depth` layers below the contact
/// point, on layer `layer`, from `step`: a plain circular node headed for the
/// build plate whose parent is the node just above it.
pub open spec fn is_dropped_node<S>(n: SupportNode<S>, step: DropStep<S>, layer: int, depth: int) -> bool {
    &&& n.id == 0
    &&& n.position == step.position
    &&& n.z == step.z
    &&& n.layer_index == layer
    &&& n.distance_to_top == depth
    &&& n.dist_mm_to_top == step.dist_mm_to_top
    &&& n.radius == step.radius
    &&& n.max_move_distance == step.max_move_distance
    &&& n.node_type == NodeType::Circle
    &&& n.to_buildplate
    &&& !n.is_sharp_tail
    &&& !n.need_extra_wall
    &&& n.support_roof_layers_below == 0
    &&& n.parent_index == Some((depth - 1) as usize)
    &&& child_index_items(n.child_indices) == Seq::<usize>::empty()
}

/// A copy of a node, children included.
fn copy_node<S: Copy>(n: &SupportNode<S>) -> (r: SupportNode<S>)
    ensures
        same_node(*n, r),
{
    SupportNode {
        id: n.id,
        position: n.position,
        z: n.z,
        layer_index: n.layer_index,
        distance_to_top: n.distance_to_top,
        dist_mm_to_top: n.dist_mm_to_top,
        radius: n.radius,
        max_move_distance: n.max_move_distance,
        node_type: n.node_type,
        to_buildplate: n.to_buildplate,
        is_sharp_tail: n.is_sharp_tail,
        need_extra_wall: n.need_extra_wall,
        support_roof_layers_below: n.support_roof_layers_below,
        parent_index: n.parent_index,
        child_indices: n.child_indices.clone(),
    }
}

/// Build the branch that drops from `contact` to the build plate, one node per
/// layer below it.
///
/// `steps[i]` is what the descent worked out for the layer `i + 1` layers below
/// the contact, so there is one step for each layer down to layer 0. The branch
/// starts with a copy of the contact node; node `i` below it sits on layer
/// `contact.layer_index - i`, is `i` layers from the top, takes its place and
/// size from `steps[i - 1]` and points to node `i - 1` as its parent. The last
/// node lies on layer 0, so the branch reaches the build plate.
pub fn build_branch<S: Copy>(contact: &SupportNode<S>, steps: &Vec<DropStep<S>>) -> (b: Branch<S>)
    requires
        steps@.len() == contact.layer_index,
        contact.layer_index <= u32::MAX,
    ensures
        b.nodes@.len() == steps@.len() + 1,
        same_node(b.nodes@[0], *contact),
        forall|i: int|
            1 <= i <= steps@.len() ==> is_dropped_node(
                #[trigger] b.nodes@[i],
                steps@[i - 1],
                contact.layer_index - i,
                i,
            ),
        b.nodes@.last().layer_index == 0,
        b.reaches_buildplate,
{
    let mut nodes: Vec<SupportNode<S>> = Vec::new();
    nodes.push(copy_node(contact));
    let n = steps.len();
    let mut k: usize = 0;
    while k < n
        invariant
            n == steps@.len(),
            n == contact.layer_index,
            n <= u32::MAX,
            0 <= k <= n,
            nodes@.len() == k + 1,
            same_node(nodes@[0], *contact),
            forall|i: int|
                1 <= i <= k ==> is_dropped_node(
                    #[trigger] nodes@[i],
                    steps@[i - 1],
                    contact.layer_index - i,
                    i,
                ),
        decreases n - k,
    {
        let step = steps[k];
        let depth: u32 = (k + 1) as u32;
        let node = SupportNode {
            id: 0,
            position: step.position,
            z: step.z,
            layer_index: contact.layer_index - (k + 1),
            distance_to_top: depth,
            dist_mm_to_top: step.dist_mm_to_top,
            radius: step.radius,
            max_move_distance: step.max_move_distance,
            node_type: NodeType::Circle,
            to_buildplate: true,
            is_sharp_tail: false,
            need_extra_wall: false,
            support_roof_layers_below: 0,
            parent_index: Some(nodes.len() - 1),
            child_indices: ChildIndices::new(),
        };
        let ghost before = nodes@;
        nodes.push(node);
        assert forall|i: int| 1 <= i <= k + 1 implies is_dropped_node(
            #[trigger] nodes@[i],
            steps@[i - 1],
            contact.layer_index - i,
            i,
        ) by {
            if i <= k {
                assert(nodes@[i] == before[i]);
            }
        }
        k = k + 1;
    }
    let last = nodes.len() - 1;
    let reaches_buildplate = nodes[last].layer_index == 0;
    proof {
        if n > 0 {
            assert(is_dropped_node(nodes@[n as int], steps@[n - 1], 0, n as int));
        }
    }
    Branch { nodes, reaches_buildplate }
}

/// A dropped branch is a chain down to the build plate: it starts with the
/// contact node and has one node per layer below it; node `i >= 1` sits on
/// layer `contact.layer_index - i`, is `i` layers from the top, has node
/// `i - 1` as its parent, takes position, height, distance, radius and move
/// from `steps[i - 1]`, has id 0, no children, a circular shape, heads for the
/// build plate and is no sharp tail, extra wall or roof; the last node is on
/// layer 0.
pub proof fn lemma_dropped_branch_chain<S>(
    contact: SupportNode<S>,
    steps: Seq<DropStep<S>>,
    b: Branch<S>,
)
    requires
        steps.len() == contact.layer_index,
        b.nodes@.len() == steps.len() + 1,
        same_node(b.nodes@[0], contact),
        forall|i: int|
            1 <= i <= steps.len() ==> is_dropped_node(
                #[trigger] b.nodes@[i],
                steps[i - 1],
                contact.layer_index - i,
                i,
            ),
    ensures
        b.nodes@[0].id == contact.id,
        b.nodes@[0].position == contact.position,
        b.nodes@[0].layer_index == contact.layer_index,
        b.nodes@[0].radius == contact.radius,
        b.nodes@[0].parent_index == contact.parent_index,
        child_index_items(b.nodes@[0].child_indices) == child_index_items(contact.child_indices),
        b.nodes@[b.nodes@.len() - 1].layer_index == 0,
        forall|i: int|
            1 <= i < b.nodes@.len() ==> {
                &&& (#[trigger] b.nodes@[i]).layer_index == contact.layer_index - i
                &&& b.nodes@[i].distance_to_top == i
                &&& b.nodes@[i].parent_index == Some((i - 1) as usize)
                &&& b.nodes@[i].position == steps[i - 1].position
                &&& b.nodes@[i].z == steps[i - 1].z
                &&& b.nodes@[i].dist_mm_to_top == steps[i - 1].dist_mm_to_top
                &&& b.nodes@[i].radius == steps[i - 1].radius
                &&& b.nodes@[i].max_move_distance == steps[i - 1].max_move_distance
                &&& b.nodes@[i].id == 0
                &&& child_index_items(b.nodes@[i].child_indices) == Seq::<usize>::empty()
                &&& b.nodes@[i].node_type == NodeType::Circle
                &&& b.nodes@[i].to_buildplate
                &&& !b.nodes@[i].is_sharp_tail
                &&& !b.nodes@[i].need_extra_wall
                &&& b.nodes@[i].support_roof_layers_below == 0
            },
{
    let n = steps.len() as int;
    if n > 0 {
        assert(is_dropped_node(b.nodes@[n], steps[n - 1], contact.layer_index - n, n));
    }
    assert forall|i: int| 1 <= i < b.nodes@.len() implies {
        &&& (#[trigger] b.nodes@[i]).layer_index == contact.layer_index - i
        &&& b.nodes@[i].distance_to_top == i
        &&& b.nodes@[i].parent_index == Some((i - 1) as usize)
        &&& b.nodes@[i].position == steps[i - 1].position
        &&& b.nodes@[i].z == steps[i - 1].z
        &&& b.nodes@[i].dist_mm_to_top == steps[i - 1].dist_mm_to_top
        &&& b.nodes@[i].radius == steps[i - 1].radius
        &&& b.nodes@[i].max_move_distance == steps[i - 1].max_move_distance
        &&& b.nodes@[i].id == 0
        &&& child_index_items(b.nodes@[i].child_indices) == Seq::<usize>::empty()
        &&& b.nodes@[i].node_type == NodeType::Circle
        &&& b.nodes@[i].to_buildplate
        &&& !b.nodes@[i].is_sharp_tail
        &&& !b.nodes@[i].need_extra_wall
        &&& b.nodes@[i].support_roof_layers_below == 0
    } by {
        assert(is_dropped_node(b.nodes@[i], steps[i - 1], contact.layer_index - i, i));
    }
}

/// The number of nodes over all branches.
pub open spec fn node_total<S>(branches: Seq<Branch<S>>) -> nat
    decreases branches.len(),
{
    if branches.len() == 0 {
        0
    } else {
        node_total(branches.drop_last()) + branches.last().nodes@.len()
    }
}

proof fn lemma_node_total_prefix<S>(branches: Seq<Branch<S>>, k: int)
    requires
        0 <= k <= branches.len(),
    ensures
        node_total(branches.take(k)) <= node_total(branches),
    decreases branches.len(),
{
    if k < branches.len() {
        assert(branches.drop_last().take(k) =~= branches.take(k));
        lemma_node_total_prefix(branches.drop_last(), k);
    } else {
        assert(branches.take(k) =~= branches);
    }
}

/// Count the nodes over all branches.
pub fn count_nodes<S>(branches: &Vec<Branch<S>>) -> (n: usize)
    requires
        node_total(branches@) <= usize::MAX,
    ensures
        n == node_total(branches@),
{
    let mut total: usize = 0;
    let mut i: usize = 0;
    while i < branches.len()
        invariant
            0 <= i <= branches@.len(),
            total == node_total(branches@.take(i as int)),
            node_total(branches@) <= usize::MAX,
        decreases branches@.len() - i,
    {
        proof {
            assert(branches@.take(i + 1).drop_last() =~= branches@.take(i as int));
            lemma_node_total_prefix(branches@, i + 1);
        }
        total = total + branches[i].nodes.len();
        i = i + 1;
    }
    assert(branches@.take(branches@.len() as int) =~= branches@);
    total
}

} // verus!
