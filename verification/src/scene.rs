//! The engine's scene vocabulary that carries no geometry: the CRS tag.
//!
//! All scene coordinates are expressed in a projected metric CRS (site-local),
//! in meters, Z-up; [`CrsInfo`] records that convention in one place. It is a
//! descriptive tag only — the real reprojection lives in [`crate::crs`].

use vstd::prelude::*;

verus! {

/// Descriptive CRS tag recording the site-local metric convention.
#[derive(Debug, Clone, PartialEq, Eq)]
pub struct CrsInfo {
    /// Human-readable CRS label, e.g. `"local-metric"`.
    pub label: String,
}

/// The label of the default site-local metric CRS.
pub open spec fn local_metric_label() -> Seq<char> {
    "local-metric"@
}

impl CrsInfo {
    /// The default: a site-local metric CRS, Z-up, meters.
    pub fn local_metric() -> (c: Self)
        ensures
            c.label@ == local_metric_label(),
    {
        CrsInfo { label: String::from_str("local-metric") }
    }
}

impl Default for CrsInfo {
    fn default() -> (c: Self)
        ensures
            c.label@ == local_metric_label(),
    {
        Self::local_metric()
    }
}

/// The count errors of a terrain profile: `N >= 1` points must come with
/// exactly `N − 1` ground segments.
#[derive(Debug, PartialEq, Eq)]
pub enum ProfileShapeError {
    /// A terrain profile must contain at least one point.
    EmptyProfile,
    /// `N` points require exactly `N − 1` ground segments.
    SegmentCountMismatch {
        /// Number of profile points.
        points: usize,
        /// Number of ground segments supplied.
        segments: usize,
        /// Number of segments required (`points − 1`).
        expected: usize,
    },
}

/// The count check of a terrain profile, made before any coordinate is
/// looked at: an empty profile first, then the segment count.
pub fn check_profile_counts(n_points: usize, n_segments: usize) -> (r: Result<(), ProfileShapeError>)
    ensures
        n_points == 0 <==> r == Err::<(), ProfileShapeError>(ProfileShapeError::EmptyProfile),
        n_points > 0 && n_segments != n_points - 1 <==> r == Err::<(), ProfileShapeError>(
            ProfileShapeError::SegmentCountMismatch {
                points: n_points,
                segments: n_segments,
                expected: (n_points - 1) as usize,
            },
        ),
        r is Ok <==> n_points > 0 && n_segments == n_points - 1,
{
    if n_points == 0 {
        return Err(ProfileShapeError::EmptyProfile);
    }
    let expected = n_points - 1;
    if n_segments != expected {
        return Err(
            ProfileShapeError::SegmentCountMismatch {
                points: n_points,
                segments: n_segments,
                expected,
            },
        );
    }
    Ok(())
}

/// The top-edge segments of a screen polyline as `(from, to)` vertex pairs:
/// an `n`-vertex polyline yields `n − 1` edges; fewer than two vertices yield
/// no edges.
pub fn polyline_edges<V: Copy>(vertices: &Vec<V>) -> (edges: Vec<(V, V)>)
    ensures
        edges@.len() == if vertices@.len() >= 1 {
            vertices@.len() - 1
        } else {
            0
        },
        forall|e: int|
            0 <= e < edges@.len() ==> #[trigger] edges@[e] == (vertices@[e], vertices@[e + 1]),
{
    let mut edges: Vec<(V, V)> = Vec::new();
    let n = vertices.len();
    if n < 2 {
        return edges;
    }
    let mut e: usize = 0;
    while e < n - 1
        invariant
            n == vertices@.len(),
            n >= 2,
            e <= n - 1,
            edges@.len() == e,
            forall|t: int| 0 <= t < e ==> #[trigger] edges@[t] == (vertices@[t], vertices@[t + 1]),
        decreases vertices@.len() - e,
    {
        edges.push((vertices[e], vertices[e + 1]));
        e = e + 1;
    }
    edges
}

} // verus!
