//! Collision regions around the model.

use vstd::prelude::*;

use std::collections::HashMap;

use crate::utils::{closer_than, copy_polygon, CoordT, Point2D};

verus! {

/// A 2D collision region at a specific layer, represented as a set of
/// boundary points forming a polygon.
#[derive(Debug, Clone)]
pub struct CollisionRegion {
    /// Boundary points of the collision polygon.
    pub boundary: Vec<Point2D>,
}

/// Whether `point` lies closer than `radius` to a boundary point of some region.
pub open spec fn near_regions(regions: Seq<CollisionRegion>, point: Point2D, radius: int) -> bool {
    exists|r: int, q: int|
        0 <= r < regions.len() && 0 <= q < regions[r].boundary@.len() && #[trigger] closer_than(
            point,
            regions[r].boundary@[q],
            radius,
        )
}

/// Check whether a branch of `radius` at `point` collides with the regions: it
/// does when the point lies closer than the radius to a boundary point of one
/// of them.
pub fn collides_with_regions(
    regions: &Vec<CollisionRegion>,
    point: &Point2D,
    radius: CoordT,
) -> (r: bool)
    ensures
        r == near_regions(regions@, *point, radius as int),
{
    let mut i: usize = 0;
    while i < regions.len()
        invariant
            0 <= i <= regions@.len(),
            forall|r: int, q: int|
                0 <= r < i && 0 <= q < regions@[r].boundary@.len() ==> !#[trigger] closer_than(
                    *point,
                    regions@[r].boundary@[q],
                    radius as int,
                ),
        decreases regions@.len() - i,
    {
        let boundary = &regions[i].boundary;
        let mut q: usize = 0;
        while q < boundary.len()
            invariant
                0 <= i < regions@.len(),
                *boundary == regions@[i as int].boundary,
                0 <= q <= boundary@.len(),
                forall|r: int, s: int|
                    0 <= r < i && 0 <= s < regions@[r].boundary@.len() ==> !#[trigger] closer_than(
                        *point,
                        regions@[r].boundary@[s],
                        radius as int,
                    ),
                forall|s: int|
                    0 <= s < q ==> !#[trigger] closer_than(
                        *point,
                        regions@[i as int].boundary@[s],
                        radius as int,
                    ),
            decreases boundary@.len() - q,
        {
            if point.is_closer_than(&boundary[q], radius) {
                assert(closer_than(*point, regions@[i as int].boundary@[q as int], radius as int));
                return true;
            }
            q = q + 1;
        }
        i = i + 1;
    }
    false
}

/// The boundaries of a sequence of regions.
pub open spec fn boundaries(regions: Seq<CollisionRegion>) -> Seq<Seq<Point2D>> {
    regions.map_values(|r: CollisionRegion| r.boundary@)
}

/// A copy of a sequence of regions.
fn copy_regions(regions: &Vec<CollisionRegion>) -> (r: Vec<CollisionRegion>)
    ensures
        boundaries(r@) == boundaries(regions@),
{
    let mut out: Vec<CollisionRegion> = Vec::new();
    let mut i: usize = 0;
    while i < regions.len()
        invariant
            0 <= i <= regions@.len(),
            boundaries(out@) == boundaries(regions@.take(i as int)),
        decreases regions@.len() - i,
    {
        let boundary = copy_polygon(&regions[i].boundary);
        let ghost prev = out@;
        let region = CollisionRegion { boundary };
        out.push(region);
        assert(boundaries(prev.push(region)) =~= boundaries(prev).push(region.boundary@));
        assert(regions@.take(i + 1) =~= regions@.take(i as int).push(regions@[i as int]));
        assert(boundaries(regions@.take(i as int).push(regions@[i as int])) =~= boundaries(
            regions@.take(i as int),
        ).push(regions@[i as int].boundary@));
        i = i + 1;
    }
    assert(regions@.take(regions@.len() as int) =~= regions@);
    out
}

/// The position of the first entry for `radius` in a layer's entries, if any.
pub open spec fn radius_slot(entries: Seq<(CoordT, Vec<CollisionRegion>)>, radius: CoordT) -> Option<
    int,
>
    decreases entries.len(),
{
    if entries.len() == 0 {
        None
    } else {
        match radius_slot(entries.drop_last(), radius) {
            Some(i) => Some(i),
            None => if entries.last().0 == radius {
                Some(entries.len() - 1)
            } else {
                None
            },
        }
    }
}

proof fn lemma_radius_slot_facts(entries: Seq<(CoordT, Vec<CollisionRegion>)>, radius: CoordT)
    ensures
        radius_slot(entries, radius) matches Some(i) ==> 0 <= i < entries.len() && entries[i].0
            == radius && forall|j: int| 0 <= j < i ==> entries[j].0 != radius,
        radius_slot(entries, radius) is None ==> forall|j: int|
            0 <= j < entries.len() ==> entries[j].0 != radius,
    decreases entries.len(),
{
    if entries.len() > 0 {
        let prefix = entries.drop_last();
        lemma_radius_slot_facts(prefix, radius);
        assert(forall|j: int| 0 <= j < prefix.len() ==> prefix[j] == entries[j]);
    }
}

proof fn lemma_radius_slot_unique(
    entries: Seq<(CoordT, Vec<CollisionRegion>)>,
    radius: CoordT,
    i: int,
)
    requires
        0 <= i < entries.len(),
        entries[i].0 == radius,
        forall|j: int| 0 <= j < i ==> entries[j].0 != radius,
    ensures
        radius_slot(entries, radius) == Some(i),
    decreases entries.len(),
{
    let prefix = entries.drop_last();
    assert(forall|j: int| 0 <= j < prefix.len() ==> prefix[j] == entries[j]);
    if i < entries.len() - 1 {
        lemma_radius_slot_unique(prefix, radius, i);
    } else {
        lemma_radius_slot_none(prefix, radius);
    }
}

proof fn lemma_radius_slot_none(entries: Seq<(CoordT, Vec<CollisionRegion>)>, radius: CoordT)
    requires
        forall|j: int| 0 <= j < entries.len() ==> entries[j].0 != radius,
    ensures
        radius_slot(entries, radius) is None,
    decreases entries.len(),
{
    if entries.len() > 0 {
        let prefix = entries.drop_last();
        assert(forall|j: int| 0 <= j < prefix.len() ==> prefix[j] == entries[j]);
        lemma_radius_slot_none(prefix, radius);
    }
}

/// Collision regions kept by branch radius and layer index.
pub struct CollisionCache {
    by_layer: HashMap<usize, Vec<(CoordT, Vec<CollisionRegion>)>>,
}

/// The boundaries stored for `radius` among a layer's entries.
pub open spec fn stored_for(entries: Seq<(CoordT, Vec<CollisionRegion>)>, radius: CoordT) -> Seq<
    Seq<Point2D>,
> {
    boundaries(entries[radius_slot(entries, radius)->0].1@)
}

impl View for CollisionCache {
    type V = Map<(CoordT, usize), Seq<Seq<Point2D>>>;

    /// The region boundaries cached for each `(radius, layer)`.
    closed spec fn view(&self) -> Map<(CoordT, usize), Seq<Seq<Point2D>>> {
        Map::new(
            |k: (CoordT, usize)|
                self.by_layer@.contains_key(k.1) && radius_slot(self.by_layer@[k.1]@, k.0) is Some,
            |k: (CoordT, usize)| stored_for(self.by_layer@[k.1]@, k.0),
        )
    }
}

impl CollisionCache {
    /// An empty cache.
    pub fn new() -> (c: Self)
        ensures
            c@ == Map::<(CoordT, usize), Seq<Seq<Point2D>>>::empty(),
    {
        broadcast use vstd::std_specs::hash::group_hash_axioms;

        let c = CollisionCache { by_layer: HashMap::new() };
        assert(c@ =~= Map::<(CoordT, usize), Seq<Seq<Point2D>>>::empty());
        c
    }

    /// A copy of the regions cached for `radius` at `layer`, if any.
    pub fn lookup(&self, radius: CoordT, layer: usize) -> (r: Option<Vec<CollisionRegion>>)
        ensures
            r is Some <==> self@.contains_key((radius, layer)),
            r matches Some(v) ==> boundaries(v@) == self@[(radius, layer)],
    {
        broadcast use vstd::std_specs::hash::group_hash_axioms;

        match self.by_layer.get(&layer) {
            None => None,
            Some(entries) => {
                let mut i: usize = 0;
                while i < entries.len()
                    invariant
                        self.by_layer@.contains_key(layer),
                        *entries == self.by_layer@[layer],
                        0 <= i <= entries@.len(),
                        forall|j: int| 0 <= j < i ==> entries@[j].0 != radius,
                    decreases entries@.len() - i,
                {
                    if entries[i].0 == radius {
                        proof {
                            lemma_radius_slot_unique(entries@, radius, i as int);
                        }
                        return Some(copy_regions(&entries[i].1));
                    }
                    i = i + 1;
                }
                proof {
                    lemma_radius_slot_none(entries@, radius);
                }
                None
            },
        }
    }

    /// Cache `regions` for `radius` at `layer`, replacing what was cached there.
    pub fn store(&mut self, radius: CoordT, layer: usize, regions: Vec<CollisionRegion>)
        ensures
            final(self)@ == old(self)@.insert((radius, layer), boundaries(regions@)),
    {
        broadcast use vstd::std_specs::hash::group_hash_axioms;

        let ghost old_map = self.by_layer@;
        let ghost old_view = self@;
        let mut entries = match self.by_layer.remove(&layer) {
            Some(e) => e,
            None => Vec::new(),
        };
        let ghost old_entries = entries@;
        assert(old_map.contains_key(layer) ==> old_entries == old_map[layer]@);
        assert(!old_map.contains_key(layer) ==> old_entries.len() == 0);
        let mut i: usize = 0;
        let mut found = false;
        while i < entries.len()
            invariant_except_break
                !found,
            invariant
                entries@ == old_entries,
                0 <= i <= entries@.len(),
                forall|j: int| 0 <= j < i ==> entries@[j].0 != radius,
            ensures
                0 <= i <= entries@.len(),
                entries@ == old_entries,
                forall|j: int| 0 <= j < i ==> entries@[j].0 != radius,
                found ==> i < entries@.len() && entries@[i as int].0 == radius,
                !found ==> i == entries@.len(),
            decreases entries@.len() - i,
        {
            if entries[i].0 == radius {
                found = true;
                break;
            }
            i = i + 1;
        }
        let ghost regions_view = boundaries(regions@);
        if found {
            entries[i] = (radius, regions);
        } else {
            entries.push((radius, regions));
        }
        let ghost new_entries = entries@;
        assert(new_entries.len() >= old_entries.len());
        assert(i < new_entries.len() && new_entries[i as int].0 == radius);
        assert(forall|j: int| 0 <= j < old_entries.len() && j != i ==> new_entries[j] == old_entries[j]);
        proof {
            lemma_radius_slot_unique(new_entries, radius, i as int);
            assert forall|r: CoordT| r != radius implies radius_slot(new_entries, r) == radius_slot(
                old_entries,
                r,
            ) && (radius_slot(old_entries, r) matches Some(s) ==> new_entries[s] == old_entries[s]) by {
                lemma_radius_slot_facts(old_entries, r);
                match radius_slot(old_entries, r) {
                    Some(s) => {
                        assert(s != i);
                        assert(new_entries[s] == old_entries[s]);
                        lemma_radius_slot_unique(new_entries, r, s);
                    },
                    None => {
                        assert forall|j: int| 0 <= j < new_entries.len() implies new_entries[j].0
                            != r by {
                            if j != i {
                                assert(new_entries[j] == old_entries[j]);
                            }
                        }
                        lemma_radius_slot_none(new_entries, r);
                    },
                }
            }
        }
        self.by_layer.insert(layer, entries);
        proof {
            assert(self@ =~= old_view.insert((radius, layer), regions_view));
        }
    }
}

/// A read after a write: once `regions` are stored for `(radius, layer)`, a
/// lookup of that key gives back their boundaries, and every other key reads
/// as it did before the store.
pub proof fn lemma_lookup_after_store(
    before: CollisionCache,
    after: CollisionCache,
    radius: CoordT,
    layer: usize,
    regions: Seq<CollisionRegion>,
    other: (CoordT, usize),
)
    requires
        after@ == before@.insert((radius, layer), boundaries(regions)),
    ensures
        after@.contains_key((radius, layer)),
        after@[(radius, layer)] == boundaries(regions),
        other != (radius, layer) ==> (after@.contains_key(other) == before@.contains_key(other)),
        other != (radius, layer) && before@.contains_key(other) ==> after@[other]
            == before@[other],
{
}

/// A branch collides exactly when some boundary point of some region, at any
/// position of its boundary, lies strictly within the radius of the point:
/// its squared distance is below the squared radius (and the radius is
/// positive, as no point is closer than a radius of zero or less).
pub proof fn lemma_collision_is_nearness(
    regions: Seq<CollisionRegion>,
    point: Point2D,
    radius: CoordT,
    collides: bool,
)
    requires
        collides == near_regions(regions, point, radius as int),
    ensures
        collides <==> (radius > 0 && exists|r: int, q: int|
            0 <= r < regions.len() && 0 <= q < regions[r].boundary@.len() && (point.x
                - #[trigger] regions[r].boundary@[q].x) * (point.x - regions[r].boundary@[q].x)
                + (point.y - regions[r].boundary@[q].y) * (point.y - regions[r].boundary@[q].y)
                < radius * radius),
{
    if collides {
        let (r, q) = choose|r: int, q: int|
            0 <= r < regions.len() && 0 <= q < regions[r].boundary@.len() && #[trigger] closer_than(
                point,
                regions[r].boundary@[q],
                radius as int,
            );
        assert(regions[r].boundary@[q] == regions[r].boundary@[q]);
    }
    if radius > 0 && exists|r: int, q: int|
        0 <= r < regions.len() && 0 <= q < regions[r].boundary@.len() && (point.x
            - #[trigger] regions[r].boundary@[q].x) * (point.x - regions[r].boundary@[q].x)
            + (point.y - regions[r].boundary@[q].y) * (point.y - regions[r].boundary@[q].y)
            < radius * radius {
        let (r, q) = choose|r: int, q: int|
            0 <= r < regions.len() && 0 <= q < regions[r].boundary@.len() && (point.x
                - #[trigger] regions[r].boundary@[q].x) * (point.x - regions[r].boundary@[q].x)
                + (point.y - regions[r].boundary@[q].y) * (point.y - regions[r].boundary@[q].y)
                < radius * radius;
        assert(closer_than(point, regions[r].boundary@[q], radius as int));
    }
}

} // verus!
