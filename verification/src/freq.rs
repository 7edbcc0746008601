//! The engine's frequency vocabulary: a fixed 105-point 1/12-octave
//! evaluation grid from 25.119 Hz to 10 kHz.
//!
//! Grid point `i` (`0 ..= 104`) sits at `f = 1000 · G^(x/12)` with the
//! exponent `x = i − 64` and `G = 10^(3/10)`. Every point with `x ≡ 0 (mod 4)`
//! is an exact 1/3-octave centre; there are 27 of them, at grid indices
//! `0, 4, 8, …, 104`. Bands are always addressed by index, never by comparing
//! frequencies.

use vstd::prelude::*;

verus! {

/// Number of 1/12-octave evaluation points: `x = −64 ..= 40`.
pub const N_BANDS: usize = 105;

/// Number of exact 1/3-octave centres contained in the grid (25 Hz … 10 kHz).
pub const N_THIRD_OCT: usize = 27;

/// Grid index of the 1000 Hz point (exponent `x = 0`).
pub const KILOHERTZ_BAND: usize = 64;

/// Index into the 105-point 1/12-octave grid.
///
/// Newtype so band positions are never confused with other `usize` values
/// and band values are never looked up by float comparison on frequencies.
#[derive(Debug, Clone, Copy, PartialEq, Eq, PartialOrd, Ord, Hash, Structural)]
pub struct BandIdx(pub usize);

/// The exponent `x` of grid point `i`: the point sits at `1000 · G^(x/12)`.
pub open spec fn band_exponent(i: int) -> int {
    i - KILOHERTZ_BAND
}

/// A grid index whose centre is an exact 1/3-octave centre (`x ≡ 0 mod 4`).
pub open spec fn is_third_octave_band(i: int) -> bool {
    0 <= i < N_BANDS && band_exponent(i) % 4 == 0
}

/// The grid index of 1/3-octave centre number `k`.
pub open spec fn third_octave_band(k: int) -> int {
    4 * k
}

impl BandIdx {
    /// The exponent `x = i − 64` of this grid point (`−64 ..= 40`).
    pub fn exponent(&self) -> (x: i32)
        requires
            self.0 < N_BANDS,
        ensures
            x == band_exponent(self.0 as int),
            x == self.0 - 64,
            -64 <= x <= 40,
    {
        self.0 as i32 - 64
    }

    /// Whether this grid point is an exact 1/3-octave centre.
    pub fn is_third_octave(&self) -> (b: bool)
        ensures
            b == is_third_octave_band(self.0 as int),
    {
        self.0 < N_BANDS && self.0 % 4 == 0
    }
}

/// The grid index of the exact 1/3-octave centre `third_idx ∈ 0..27`.
///
/// Every 4th grid point is an exact 1/3-octave centre: `third_idx` 0 is the
/// nominal 25 Hz band (exact 25.1189 Hz), 16 is 1000 Hz, 26 is 10 kHz.
pub fn third_octave_index(third_idx: usize) -> (b: BandIdx)
    requires
        third_idx < N_THIRD_OCT,
    ensures
        b.0 == third_octave_band(third_idx as int),
        is_third_octave_band(b.0 as int),
{
    BandIdx(third_idx * 4)
}

/// Grid point `i` has exponent `i − 64`: the lowest point has `−64`, the
/// 1000 Hz point `0`, the highest `40`, and the exponent rises by exactly
/// one per grid step, so it strictly increases with the index (the grid
/// ascends in frequency).
pub proof fn lemma_exponent_rises_with_index()
    ensures
        forall|i: int| #[trigger] band_exponent(i) == i - 64,
        forall|i: int, j: int|
            i < j ==> #[trigger] band_exponent(i) < #[trigger] band_exponent(j)
                && band_exponent(j) - band_exponent(i) == j - i,
        band_exponent(0) == -64,
        band_exponent(KILOHERTZ_BAND as int) == 0,
        band_exponent(N_BANDS - 1) == 40,
{
}

/// The 1/3-octave picks are exactly the grid points with `x ≡ 0 (mod 4)`:
/// pick `k` is such a point for every `k < 27`, distinct picks are distinct
/// points, and every such point is the pick of exactly one `k`. Pick 0 is the
/// lowest grid point, pick 16 is the 1000 Hz point and pick 26 the highest.
pub proof fn lemma_third_octave_picks_are_the_exact_centres()
    ensures
        forall|k: int| 0 <= k < N_THIRD_OCT ==> #[trigger] is_third_octave_band(third_octave_band(k)),
        forall|k: int, j: int|
            0 <= k < N_THIRD_OCT && 0 <= j < N_THIRD_OCT && k != j ==> #[trigger] third_octave_band(k)
                != #[trigger] third_octave_band(j),
        forall|i: int| #[trigger]
            is_third_octave_band(i) ==> 0 <= i / 4 < N_THIRD_OCT && third_octave_band(i / 4) == i,
        third_octave_band(0) == 0,
        band_exponent(third_octave_band(16)) == 0,
        third_octave_band(N_THIRD_OCT - 1) == N_BANDS - 1,
{
    assert forall|i: int| #[trigger] is_third_octave_band(i) implies 0 <= i / 4 < N_THIRD_OCT
        && third_octave_band(i / 4) == i by {
        assert((i - 64) % 4 == 0);
        assert(i % 4 == 0);
    }
}

} // verus!
