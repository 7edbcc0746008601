//! The discrete half of terrain interpretation: grouping the profile points
//! that rise above the source–receiver line of sight into screens, choosing
//! the primary screen, classifying the terrain into the sub-model it
//! dispatches to, and the index bookkeeping around the screens (flank points,
//! wedge-face ground segments, reflecting-strip spans).
//!
//! Which points are above the line of sight, which point is the primary
//! diffracting edge and how many top edges a screen shape reduces to are
//! geometric decisions on the profile coordinates; they arrive here as a
//! per-point mask, an index and a count.

use vstd::prelude::*;

verus! {

/// The sub-model a profile dispatches to (the screen classification).
#[derive(Debug, Clone, Copy, PartialEq, Eq, Structural)]
pub enum ScreenClass {
    /// No qualifying screen — flat ground (Sub-model 1 or 2).
    Flat,
    /// One screen, one diffracting edge (Sub-model 4).
    SingleEdge,
    /// One thick screen, two edges of one body (Sub-model 5).
    ThickScreen,
    /// Two separate screens (Sub-model 6).
    DoubleScreen,
}

/// Which branches of the transition blend a class switches on: the screen
/// branch at all, the two-screen branch, the thick-screen branch.
#[derive(Debug, Clone, Copy, PartialEq, Eq, Structural)]
pub struct TransitionFlags {
    /// The screen-vs-no-screen weight is evaluated (any screen).
    pub screen: bool,
    /// The two-screen weight is 1 (double screen).
    pub two_screens: bool,
    /// The thick-vs-single-edge weight is 1 (thick screen).
    pub thick: bool,
}

impl ScreenClass {
    /// The transition-blend switches of this class: a screen weight for every
    /// class but `Flat`, the two-screen weight only for `DoubleScreen`, the
    /// thick weight only for `ThickScreen`.
    pub fn transition_flags(&self) -> (t: TransitionFlags)
        ensures
            t.screen == (*self != ScreenClass::Flat),
            t.two_screens == (*self == ScreenClass::DoubleScreen),
            t.thick == (*self == ScreenClass::ThickScreen),
    {
        match self {
            ScreenClass::Flat => TransitionFlags { screen: false, two_screens: false, thick: false },
            ScreenClass::SingleEdge => TransitionFlags {
                screen: true,
                two_screens: false,
                thick: false,
            },
            ScreenClass::ThickScreen => TransitionFlags {
                screen: true,
                two_screens: false,
                thick: true,
            },
            ScreenClass::DoubleScreen => TransitionFlags {
                screen: true,
                two_screens: true,
                thick: false,
            },
        }
    }
}

/// A screen: a maximal run of consecutive above-line-of-sight profile points
/// `first ..= last`.
#[derive(Debug, Clone, Copy, PartialEq, Eq, Structural)]
pub struct ScreenRun {
    /// Index of the run's first profile point.
    pub first: usize,
    /// Index of the run's last profile point.
    pub last: usize,
}

/// `r` is a maximal run of `true` entries of `above`.
pub open spec fn run_ok(above: Seq<bool>, r: ScreenRun) -> bool {
    &&& r.first <= r.last < above.len()
    &&& forall|i: int| r.first <= i <= r.last ==> #[trigger] above[i]
    &&& (r.first == 0 || !above[r.first - 1])
    &&& (r.last + 1 == above.len() || !above[r.last + 1])
}

/// `i` lies in run `r`.
pub open spec fn in_run(r: ScreenRun, i: int) -> bool {
    r.first <= i <= r.last
}

/// `runs` are exactly the screens of `above`: each is a maximal run of
/// above-line-of-sight points, they come in profile order separated by at
/// least one ground point, and every above-line-of-sight point lies in one.
pub open spec fn screens_of(above: Seq<bool>, runs: Seq<ScreenRun>) -> bool {
    &&& forall|a: int| 0 <= a < runs.len() ==> run_ok(above, #[trigger] runs[a])
    &&& forall|a: int, b: int| 0 <= a < b < runs.len() ==> #[trigger] runs[a].last + 1 < #[trigger] runs[b].first
    &&& forall|i: int|
        0 <= i < above.len() && #[trigger] above[i] ==> exists|a: int|
            0 <= a < runs.len() && in_run(#[trigger] runs[a], i)
}

/// Group the above-line-of-sight points (`above[i]`) of a profile into
/// screens: the maximal runs of consecutive above points, in profile order.
pub fn screen_runs(above: &Vec<bool>) -> (runs: Vec<ScreenRun>)
    ensures
        screens_of(above@, runs@),
{
    let n = above.len();
    let mut runs: Vec<ScreenRun> = Vec::new();
    let mut start: Option<usize> = None;
    let mut i: usize = 0;
    while i < n
        invariant
            i <= n,
            n == above@.len(),
            forall|a: int| 0 <= a < runs@.len() ==> run_ok(above@, #[trigger] runs@[a]),
            forall|a: int, b: int|
                0 <= a < b < runs@.len() ==> #[trigger] runs@[a].last + 1 < #[trigger] runs@[b].first,
            forall|a: int| 0 <= a < runs@.len() ==> #[trigger] runs@[a].last + 1 < i,
            match start {
                Some(s) => {
                    &&& s < i
                    &&& forall|j: int| s <= j < i ==> #[trigger] above@[j]
                    &&& (s == 0 || !above@[s - 1])
                    &&& forall|a: int| 0 <= a < runs@.len() ==> #[trigger] runs@[a].last + 1 < s
                },
                None => i == 0 || !above@[i - 1],
            },
            forall|j: int|
                0 <= j < i && #[trigger] above@[j] ==> (exists|a: int|
                    0 <= a < runs@.len() && in_run(#[trigger] runs@[a], j)) || (start matches Some(
                    s,
                ) && s <= j),
        decreases n - i,
    {
        if above[i] {
            if start.is_none() {
                start = Some(i);
            }
        } else {
            match start {
                Some(s) => {
                    let ghost old_runs = runs@;
                    let r = ScreenRun { first: s, last: i - 1 };
                    runs.push(r);
                    assert(runs@[runs@.len() - 1] == r);
                    assert forall|j: int|
                        0 <= j < i + 1 && #[trigger] above@[j] implies exists|a: int|
                        0 <= a < runs@.len() && in_run(#[trigger] runs@[a], j) by {
                        if j >= s {
                            assert(in_run(runs@[runs@.len() - 1], j));
                        } else {
                            let a = choose|a: int| 0 <= a < old_runs.len() && in_run(old_runs[a], j);
                            assert(runs@[a] == old_runs[a]);
                        }
                    }
                    start = None;
                },
                None => {},
            }
        }
        i = i + 1;
    }
    match start {
        Some(s) => {
            let ghost old_runs = runs@;
            let r = ScreenRun { first: s, last: n - 1 };
            runs.push(r);
            assert(runs@[runs@.len() - 1] == r);
            assert forall|j: int| 0 <= j < n && #[trigger] above@[j] implies exists|a: int|
                0 <= a < runs@.len() && in_run(#[trigger] runs@[a], j) by {
                if j >= s {
                    assert(in_run(runs@[runs@.len() - 1], j));
                } else {
                    let a = choose|a: int| 0 <= a < old_runs.len() && in_run(old_runs[a], j);
                    assert(runs@[a] == old_runs[a]);
                }
            }
        },
        None => {},
    }
    runs
}

/// The primary screen: the first screen that contains the primary
/// diffracting edge `edge_idx`, or the first screen when none does.
pub fn primary_run(runs: &Vec<ScreenRun>, edge_idx: usize) -> (p: usize)
    requires
        runs@.len() > 0,
    ensures
        p < runs@.len(),
        (exists|a: int| 0 <= a < runs@.len() && in_run(#[trigger] runs@[a], edge_idx as int)) ==> {
            &&& in_run(runs@[p as int], edge_idx as int)
            &&& forall|a: int| 0 <= a < p ==> !in_run(#[trigger] runs@[a], edge_idx as int)
        },
        (forall|a: int| 0 <= a < runs@.len() ==> !in_run(#[trigger] runs@[a], edge_idx as int))
            ==> p == 0,
{
    let mut a: usize = 0;
    while a < runs.len()
        invariant
            a <= runs@.len(),
            forall|b: int| 0 <= b < a ==> !in_run(#[trigger] runs@[b], edge_idx as int),
        decreases runs@.len() - a,
    {
        let r = runs[a];
        if r.first <= edge_idx && edge_idx <= r.last {
            return a;
        }
        a = a + 1;
    }
    0
}

/// The class of a screened profile: two or more screens are a double screen
/// (the first two are used); a single screen whose reduced shape keeps two
/// top edges is thick; otherwise it has a single edge.
pub fn classify_screens(n_screens: usize, n_top_edges: usize) -> (c: ScreenClass)
    requires
        n_screens >= 1,
    ensures
        c == (if n_screens >= 2 {
            ScreenClass::DoubleScreen
        } else if n_top_edges >= 2 {
            ScreenClass::ThickScreen
        } else {
            ScreenClass::SingleEdge
        }),
        c != ScreenClass::Flat,
{
    if n_screens >= 2 {
        ScreenClass::DoubleScreen
    } else if n_top_edges >= 2 {
        ScreenClass::ThickScreen
    } else {
        ScreenClass::SingleEdge
    }
}

/// The flank points `(W₁, W₂)` of a screen in a profile of `n_points`
/// points: the point before its first point and the point after its last,
/// clamped to the profile ends.
pub fn run_flanks(r: ScreenRun, n_points: usize) -> (w: (usize, usize))
    requires
        r.first <= r.last < n_points,
    ensures
        w.0 == if r.first == 0 {
            0
        } else {
            r.first - 1
        },
        w.1 == if r.last + 1 < n_points {
            r.last + 1
        } else {
            n_points - 1
        },
        w.0 <= r.first,
        r.last <= w.1 < n_points,
{
    let w1 = if r.first == 0 {
        0
    } else {
        r.first - 1
    };
    let w2 = if r.last + 1 < n_points {
        r.last + 1
    } else {
        n_points - 1
    };
    (w1, w2)
}

/// The ground segments flanking the primary edge (a profile point, so
/// `edge_idx <= n_segments`): the segment ending at it (the source-side wedge
/// face) and the segment starting at it (the receiver-side face), clamped to
/// the profile's `n_segments` segments.
pub fn face_segments(edge_idx: usize, n_segments: usize) -> (f: (usize, usize))
    requires
        n_segments >= 1,
        edge_idx <= n_segments,
    ensures
        f.0 == if edge_idx == 0 {
            0
        } else {
            edge_idx - 1
        },
        f.1 == if edge_idx < n_segments {
            edge_idx as int
        } else {
            n_segments - 1
        },
        f.0 < n_segments,
        f.1 < n_segments,
{
    let f0 = if edge_idx == 0 {
        0
    } else {
        edge_idx - 1
    };
    let f1 = if edge_idx < n_segments {
        edge_idx
    } else {
        n_segments - 1
    };
    (f0, f1)
}

/// The segments `a ..` that become reflecting strips when the strips over
/// segments `[a, b)` are wanted from a profile of `n_segments` segments:
/// `[a, min(b, n_segments))`, empty when that is empty.
pub fn strip_span(a: usize, b: usize, n_segments: usize) -> (s: (usize, usize))
    ensures
        s.0 == a,
        s.1 == if a >= b || a >= n_segments {
            a
        } else if b < n_segments {
            b
        } else {
            n_segments
        },
        s.0 <= s.1,
        s.1 <= n_segments || s.1 == a,
{
    if a >= b || a >= n_segments {
        (a, a)
    } else if b < n_segments {
        (a, b)
    } else {
        (a, n_segments)
    }
}

/// The flank points of a screen are ground points: whenever a screen does
/// not reach the start (end) of the profile, its flank `W₁` (`W₂`) is not
/// above the line of sight, and it lies just outside the screen.
pub proof fn lemma_flanks_are_ground(above: Seq<bool>, runs: Seq<ScreenRun>, a: int)
    requires
        screens_of(above, runs),
        0 <= a < runs.len(),
    ensures
        runs[a].first > 0 ==> !above[runs[a].first - 1] && runs[a].first - 1 < runs[a].first,
        runs[a].last + 1 < above.len() ==> !above[runs[a].last + 1],
        forall|b: int| 0 <= b < runs.len() && b != a ==> !in_run(#[trigger] runs[b], runs[a].first as int)
            && !in_run(runs[b], runs[a].last as int),
{
    assert(run_ok(above, runs[a]));
    assert forall|b: int| 0 <= b < runs.len() && b != a implies !in_run(#[trigger] runs[b], runs[a].first as int)
        && !in_run(runs[b], runs[a].last as int) by {
        assert(run_ok(above, runs[b]));
        if b < a {
            assert(runs[b].last + 1 < runs[a].first);
        } else {
            assert(runs[a].last + 1 < runs[b].first);
        }
    }
}

/// Each above-line-of-sight point lies in exactly one screen.
pub proof fn lemma_screens_are_disjoint(above: Seq<bool>, runs: Seq<ScreenRun>, i: int)
    requires
        screens_of(above, runs),
        0 <= i < above.len(),
        above[i],
    ensures
        exists|a: int| 0 <= a < runs.len() && in_run(#[trigger] runs[a], i),
        forall|a: int, b: int|
            0 <= a < runs.len() && 0 <= b < runs.len() && in_run(#[trigger] runs[a], i) && in_run(
                #[trigger] runs[b],
                i,
            ) ==> a == b,
{
    assert forall|a: int, b: int|
        0 <= a < runs.len() && 0 <= b < runs.len() && in_run(#[trigger] runs[a], i) && in_run(
            #[trigger] runs[b],
            i,
        ) implies a == b by {
        if a < b {
            assert(runs[a].last + 1 < runs[b].first);
        } else if b < a {
            assert(runs[b].last + 1 < runs[a].first);
        }
    }
}

/// A profile has no screen exactly when no point rises above the line of
/// sight (the flat case), and its screens cover exactly its above points.
pub proof fn lemma_no_screen_iff_clear_line_of_sight(above: Seq<bool>, runs: Seq<ScreenRun>)
    requires
        screens_of(above, runs),
    ensures
        runs.len() == 0 <==> forall|i: int| 0 <= i < above.len() ==> !#[trigger] above[i],
        forall|i: int|
            0 <= i < above.len() ==> (#[trigger] above[i] <==> exists|a: int|
                0 <= a < runs.len() && in_run(#[trigger] runs[a], i)),
{
    assert forall|i: int| 0 <= i < above.len() implies (#[trigger] above[i] <==> exists|a: int|
        0 <= a < runs.len() && in_run(#[trigger] runs[a], i)) by {
        if exists|a: int| 0 <= a < runs.len() && in_run(#[trigger] runs[a], i) {
            let a = choose|a: int| 0 <= a < runs.len() && in_run(#[trigger] runs[a], i);
            assert(run_ok(above, runs[a]));
        }
    }
    if runs.len() > 0 {
        assert(run_ok(above, runs[0]));
        assert(above[runs[0].first as int]);
    }
}

} // verus!
