//! The shape check of a per-band directivity balloon `ΔL(azimuth, polar,
//! band)`: the grid is `[azimuth, polar, band]` with the band axis locked to
//! [`N_BANDS`](crate::freq::N_BANDS), and each angle axis labels one grid
//! dimension with at least two nodes.

use crate::freq::N_BANDS;
use vstd::prelude::*;

verus! {

/// The dimension errors of a directivity balloon.
#[derive(Debug, PartialEq, Eq)]
pub enum BalloonShapeError {
    /// A grid axis had fewer than two nodes (cannot interpolate).
    TooFewNodes {
        /// Which axis was too short.
        axis: &'static str,
        /// The observed node count.
        got: usize,
    },
    /// An axis length disagreed with the grid dimension it labels.
    AxisGridMismatch {
        /// Which axis disagreed.
        axis: &'static str,
        /// The axis vector length.
        axis_len: usize,
        /// The grid dimension length.
        grid_len: usize,
    },
    /// The band axis was not [`N_BANDS`] long.
    BandCountMismatch {
        /// Expected band count ([`N_BANDS`]).
        expected: usize,
        /// Observed band count.
        got: usize,
    },
}

/// The error, if any, of a balloon with `n_az` azimuth nodes, `n_pol` polar
/// nodes and a grid of dims `grid`, in the order the constructor checks.
pub open spec fn balloon_shape_error(n_az: usize, n_pol: usize, grid: (usize, usize, usize)) -> Option<
    BalloonShapeError,
> {
    if n_az < 2 {
        Some(BalloonShapeError::TooFewNodes { axis: "azimuth", got: n_az })
    } else if n_pol < 2 {
        Some(BalloonShapeError::TooFewNodes { axis: "polar", got: n_pol })
    } else if n_az != grid.0 {
        Some(BalloonShapeError::AxisGridMismatch { axis: "azimuth", axis_len: n_az, grid_len: grid.0 })
    } else if n_pol != grid.1 {
        Some(BalloonShapeError::AxisGridMismatch { axis: "polar", axis_len: n_pol, grid_len: grid.1 })
    } else if grid.2 != N_BANDS {
        Some(BalloonShapeError::BandCountMismatch { expected: N_BANDS, got: grid.2 })
    } else {
        None
    }
}

/// A balloon shape is accepted exactly when both angle axes have at least
/// two nodes, the azimuth axis is as long as the grid's first dimension, the
/// polar axis as long as its second, and the grid has [`N_BANDS`] bands. A
/// refused shape names the first failing check with the observed lengths: a
/// short azimuth axis, then a short polar axis, then an azimuth axis of
/// another length than the grid's rows, then such a polar axis, then a wrong
/// band count.
pub proof fn lemma_balloon_shape_accepts_exactly_matching_grids(
    n_az: usize,
    n_pol: usize,
    grid: (usize, usize, usize),
)
    ensures
        balloon_shape_error(n_az, n_pol, grid) is None <==> (n_az >= 2 && n_pol >= 2 && n_az
            == grid.0 && n_pol == grid.1 && grid.2 == N_BANDS),
        n_az < 2 ==> balloon_shape_error(n_az, n_pol, grid) == Some(
            (BalloonShapeError::TooFewNodes { axis: "azimuth", got: n_az }),
        ),
        n_az >= 2 && n_pol < 2 ==> balloon_shape_error(n_az, n_pol, grid) == Some(
            (BalloonShapeError::TooFewNodes { axis: "polar", got: n_pol }),
        ),
        n_az >= 2 && n_pol >= 2 && n_az != grid.0 ==> balloon_shape_error(n_az, n_pol, grid)
            == Some(
            (BalloonShapeError::AxisGridMismatch { axis: "azimuth", axis_len: n_az, grid_len: grid.0 }),
        ),
        n_az >= 2 && n_pol >= 2 && n_az == grid.0 && n_pol != grid.1 ==> balloon_shape_error(
            n_az,
            n_pol,
            grid,
        ) == Some(
            (BalloonShapeError::AxisGridMismatch { axis: "polar", axis_len: n_pol, grid_len: grid.1 }),
        ),
        n_az >= 2 && n_pol >= 2 && n_az == grid.0 && n_pol == grid.1 && grid.2 != N_BANDS
            ==> balloon_shape_error(n_az, n_pol, grid) == Some(
            (BalloonShapeError::BandCountMismatch { expected: N_BANDS, got: grid.2 }),
        ),
{
}

/// Check the dimensions of a balloon before its values are looked at: at
/// least two nodes per angle axis, each axis as long as the grid dimension it
/// labels, and exactly [`N_BANDS`] bands.
pub fn check_balloon_shape(n_az: usize, n_pol: usize, grid: (usize, usize, usize)) -> (r: Result<
    (),
    BalloonShapeError,
>)
    ensures
        match r {
            Ok(()) => balloon_shape_error(n_az, n_pol, grid) is None,
            Err(e) => balloon_shape_error(n_az, n_pol, grid) == Some(e),
        },
        r is Ok <==> (n_az >= 2 && n_pol >= 2 && n_az == grid.0 && n_pol == grid.1 && grid.2
            == N_BANDS),
        n_az < 2 ==> r == Err::<(), BalloonShapeError>(
            (BalloonShapeError::TooFewNodes { axis: "azimuth", got: n_az }),
        ),
        n_az >= 2 && n_pol < 2 ==> r == Err::<(), BalloonShapeError>(
            (BalloonShapeError::TooFewNodes { axis: "polar", got: n_pol }),
        ),
        n_az >= 2 && n_pol >= 2 && n_az != grid.0 ==> r == Err::<(), BalloonShapeError>(
            (BalloonShapeError::AxisGridMismatch { axis: "azimuth", axis_len: n_az, grid_len: grid.0 }),
        ),
        n_az >= 2 && n_pol >= 2 && n_az == grid.0 && n_pol != grid.1 ==> r == Err::<
            (),
            BalloonShapeError,
        >((BalloonShapeError::AxisGridMismatch { axis: "polar", axis_len: n_pol, grid_len: grid.1 })),
        n_az >= 2 && n_pol >= 2 && n_az == grid.0 && n_pol == grid.1 && grid.2 != N_BANDS ==> r
            == Err::<(), BalloonShapeError>(
            (BalloonShapeError::BandCountMismatch { expected: N_BANDS, got: grid.2 }),
        ),
{
    if n_az < 2 {
        return Err(BalloonShapeError::TooFewNodes { axis: "azimuth", got: n_az });
    }
    if n_pol < 2 {
        return Err(BalloonShapeError::TooFewNodes { axis: "polar", got: n_pol });
    }
    if n_az != grid.0 {
        return Err(
            BalloonShapeError::AxisGridMismatch { axis: "azimuth", axis_len: n_az, grid_len: grid.0 },
        );
    }
    if n_pol != grid.1 {
        return Err(
            BalloonShapeError::AxisGridMismatch { axis: "polar", axis_len: n_pol, grid_len: grid.1 },
        );
    }
    if grid.2 != N_BANDS {
        return Err(BalloonShapeError::BandCountMismatch { expected: N_BANDS, got: grid.2 });
    }
    Ok(())
}

} // verus!
