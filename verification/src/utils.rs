//! Error type, scaled coordinates and the 2D point type.

use vstd::prelude::*;

verus! {

/// Coordinate type in scaled integer units (1 unit = 1 nm).
pub type CoordT = i64;

/// Unified error type for all tree support operations.
#[derive(Debug)]
pub enum TreeSupportError {
    /// The input mesh is degenerate or empty.
    InvalidMesh(String),
    /// A configuration parameter is out of range.
    InvalidConfig(String),
    /// An internal algorithm invariant was violated.
    Internal(String),
    /// A null pointer was passed where one was not expected.
    NullPointer(String),
}

/// Result alias used throughout the crate.
pub type Result<T> = core::result::Result<T, TreeSupportError>;

/// A 2D point in scaled integer coordinates.
#[derive(Debug, Clone, Copy, PartialEq, Eq, Structural, Hash, Default)]
pub struct Point2D {
    /// X coordinate in scaled units.
    pub x: CoordT,
    /// Y coordinate in scaled units.
    pub y: CoordT,
}

impl Point2D {
    /// Create a new 2D point.
    pub fn new(x: CoordT, y: CoordT) -> (p: Self)
        ensures
            p.x == x,
            p.y == y,
    {
        Point2D { x, y }
    }
}

/// The squared Euclidean distance between two points.
pub open spec fn squared_distance(a: Point2D, b: Point2D) -> int {
    (a.x - b.x) * (a.x - b.x) + (a.y - b.y) * (a.y - b.y)
}

/// Whether the Euclidean distance between `a` and `b` is less than `d`.
pub open spec fn closer_than(a: Point2D, b: Point2D, d: int) -> bool {
    d > 0 && squared_distance(a, b) < d * d
}

/// The absolute difference of two coordinates, exactly.
fn coordinate_gap(a: CoordT, b: CoordT) -> (g: u128)
    ensures
        g as int == if a >= b { a - b } else { b - a },
{
    if a >= b {
        ((a as i128) - (b as i128)) as u128
    } else {
        ((b as i128) - (a as i128)) as u128
    }
}

impl Point2D {
    /// Whether the Euclidean distance to `other` is less than `d`.
    ///
    /// The comparison is exact: it compares squared distances in wide integers.
    pub fn is_closer_than(&self, other: &Self, d: CoordT) -> (r: bool)
        ensures
            r == closer_than(*self, *other, d as int),
    {
        if d <= 0 {
            return false;
        }
        let gx = coordinate_gap(self.x, other.x);
        let gy = coordinate_gap(self.y, other.y);
        let du = d as u128;
        if gx >= du || gy >= du {
            proof {
                let dx = self.x - other.x;
                let dy = self.y - other.y;
                assert(dx * dx == gx * gx) by (nonlinear_arith)
                    requires gx as int == if dx >= 0 { dx } else { -dx };
                assert(dy * dy == gy * gy) by (nonlinear_arith)
                    requires gy as int == if dy >= 0 { dy } else { -dy };
                assert(gx * gx >= 0 && gy * gy >= 0) by (nonlinear_arith);
                if gx >= du {
                    assert(gx * gx >= du * du) by (nonlinear_arith)
                        requires gx >= du, du > 0;
                } else {
                    assert(gy * gy >= du * du) by (nonlinear_arith)
                        requires gy >= du, du > 0;
                }
            }
            return false;
        }
        proof {
            assert(gx * gx < du * du) by (nonlinear_arith)
                requires gx < du;
            assert(gy * gy < du * du) by (nonlinear_arith)
                requires gy < du;
            assert(du * du <= 0x4000_0000_0000_0000_0000_0000_0000_0000) by (nonlinear_arith)
                requires du <= 0x8000_0000_0000_0000u128;
            let dx = self.x - other.x;
            let dy = self.y - other.y;
            assert(dx * dx == gx * gx) by (nonlinear_arith)
                requires gx as int == if dx >= 0 { dx } else { -dx };
            assert(dy * dy == gy * gy) by (nonlinear_arith)
                requires gy as int == if dy >= 0 { dy } else { -dy };
        }
        gx * gx + gy * gy < du * du
    }
}

/// Scoped timer for profiling sections; it measures nothing in this build.
pub struct ScopedTimer;

impl ScopedTimer {
    /// Create a timer for the labelled section.
    pub fn new(_label: &'static str) -> (t: Self) {
        ScopedTimer
    }
}

/// A copy of a polygon's points.
pub fn copy_polygon(points: &Vec<Point2D>) -> (r: Vec<Point2D>)
    ensures
        r@ == points@,
{
    let r = points.clone();
    assert(r@ =~= points@);
    r
}

/// The entries of `entries` whose layer is `k`, in order.
pub open spec fn entries_at<T>(entries: Seq<(usize, T)>, k: int) -> Seq<(usize, T)>
    decreases entries.len(),
{
    if entries.len() == 0 {
        Seq::empty()
    } else {
        let prev = entries_at(entries.drop_last(), k);
        if entries.last().0 == k {
            prev.push(entries.last())
        } else {
            prev
        }
    }
}

/// The entries of `entries` with layers below `n`, grouped by layer in
/// ascending order and kept in input order within a layer: the
/// stable sort by layer of the entries below `n`.
pub open spec fn grouped_by_layer<T>(entries: Seq<(usize, T)>, n: int) -> Seq<(usize, T)>
    decreases n,
{
    if n <= 0 {
        Seq::empty()
    } else {
        grouped_by_layer(entries, n - 1) + entries_at(entries, n - 1)
    }
}

/// Every entry that `entries_at` picks is on layer `k`.
pub proof fn lemma_entries_at_layer<T>(entries: Seq<(usize, T)>, k: int)
    ensures
        forall|i: int| 0 <= i < entries_at(entries, k).len() ==> (#[trigger] entries_at(entries, k)[i]).0 == k,
    decreases entries.len(),
{
    if entries.len() > 0 {
        lemma_entries_at_layer(entries.drop_last(), k);
        let prev = entries_at(entries.drop_last(), k);
        let cur = entries_at(entries, k);
        assert forall|i: int| 0 <= i < cur.len() implies (#[trigger] cur[i]).0 == k by {
            if i < prev.len() {
                assert(cur[i] == prev[i]);
            }
        }
    }
}

/// Grouping by layer sorts: the grouped entries come in non-decreasing layer
/// order, every one of them below `n`.
pub proof fn lemma_grouped_by_layer_sorted<T>(entries: Seq<(usize, T)>, n: int)
    ensures
        forall|i: int, j: int|
            0 <= i < j < grouped_by_layer(entries, n).len() ==> (#[trigger] grouped_by_layer(
                entries,
                n,
            )[i]).0 <= (#[trigger] grouped_by_layer(entries, n)[j]).0,
        forall|i: int|
            0 <= i < grouped_by_layer(entries, n).len() ==> (#[trigger] grouped_by_layer(
                entries,
                n,
            )[i]).0 < n,
    decreases n,
{
    if n > 0 {
        lemma_grouped_by_layer_sorted(entries, n - 1);
        lemma_entries_at_layer(entries, n - 1);
        let prev = grouped_by_layer(entries, n - 1);
        let at = entries_at(entries, n - 1);
        let cur = grouped_by_layer(entries, n);
        assert(cur == prev + at);
        assert forall|i: int| 0 <= i < cur.len() implies (#[trigger] cur[i]).0 < n by {
            if i < prev.len() {
                assert(cur[i] == prev[i]);
            } else {
                assert(cur[i] == at[i - prev.len()]);
            }
        }
        assert forall|i: int, j: int| 0 <= i < j < cur.len() implies (#[trigger] cur[i]).0 <= (
        #[trigger] cur[j]).0 by {
            if j < prev.len() {
                assert(cur[i] == prev[i] && cur[j] == prev[j]);
            } else if i < prev.len() {
                assert(cur[i] == prev[i] && cur[j] == at[j - prev.len()]);
            } else {
                assert(cur[i] == at[i - prev.len()] && cur[j] == at[j - prev.len()]);
            }
        }
    }
}

/// `entries_at` picks exactly the entries on layer `k`.
pub proof fn lemma_entries_at_contains<T>(entries: Seq<(usize, T)>, k: int, x: (usize, T))
    ensures
        entries_at(entries, k).contains(x) <==> (entries.contains(x) && x.0 == k),
    decreases entries.len(),
{
    if entries.len() > 0 {
        let init = entries.drop_last();
        lemma_entries_at_contains(init, k, x);
        let prev = entries_at(init, k);
        let cur = entries_at(entries, k);
        if cur.contains(x) {
            let i = choose|i: int| 0 <= i < cur.len() && cur[i] == x;
            if i < prev.len() {
                assert(cur[i] == prev[i]);
                let j = choose|j: int| 0 <= j < init.len() && init[j] == x;
                assert(entries[j] == x);
            } else {
                assert(x == entries.last());
                assert(entries[entries.len() - 1] == x);
            }
        }
        if entries.contains(x) && x.0 == k {
            let j = choose|j: int| 0 <= j < entries.len() && entries[j] == x;
            if j < entries.len() - 1 {
                assert(init[j] == x);
                let i = choose|i: int| 0 <= i < prev.len() && prev[i] == x;
                assert(cur[i] == x);
            } else {
                assert(cur[cur.len() - 1] == x);
            }
        }
    }
}

/// Grouping by layer keeps exactly the entries below `n`.
pub proof fn lemma_grouped_by_layer_contains<T>(entries: Seq<(usize, T)>, n: int, x: (usize, T))
    ensures
        grouped_by_layer(entries, n).contains(x) <==> (entries.contains(x) && x.0 < n),
    decreases n,
{
    if n > 0 {
        lemma_grouped_by_layer_contains(entries, n - 1, x);
        lemma_entries_at_contains(entries, n - 1, x);
        let prev = grouped_by_layer(entries, n - 1);
        let at = entries_at(entries, n - 1);
        let cur = grouped_by_layer(entries, n);
        assert(cur == prev + at);
        if cur.contains(x) {
            let i = choose|i: int| 0 <= i < cur.len() && cur[i] == x;
            if i < prev.len() {
                assert(prev[i] == x);
            } else {
                assert(at[i - prev.len()] == x);
            }
        }
        if entries.contains(x) && x.0 < n {
            if x.0 < n - 1 {
                let i = choose|i: int| 0 <= i < prev.len() && prev[i] == x;
                assert(cur[i] == x);
            } else {
                let i = choose|i: int| 0 <= i < at.len() && at[i] == x;
                assert(cur[prev.len() + i] == x);
            }
        }
    }
}

} // verus!
