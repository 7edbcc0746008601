use envi::directivity::{check_balloon_shape, BalloonShapeError};
use envi::freq::N_BANDS;

#[test]
fn balloon_shape_rejects_malformed_grids_with_typed_errors() {
    assert_eq!(
        check_balloon_shape(1, 2, (1, 2, N_BANDS)),
        Err(BalloonShapeError::TooFewNodes {
            axis: "azimuth",
            got: 1
        })
    );
    assert_eq!(
        check_balloon_shape(2, 1, (2, 1, N_BANDS)),
        Err(BalloonShapeError::TooFewNodes {
            axis: "polar",
            got: 1
        })
    );
    assert_eq!(
        check_balloon_shape(3, 2, (2, 2, N_BANDS)),
        Err(BalloonShapeError::AxisGridMismatch {
            axis: "azimuth",
            axis_len: 3,
            grid_len: 2
        })
    );
    assert_eq!(
        check_balloon_shape(2, 3, (2, 2, N_BANDS)),
        Err(BalloonShapeError::AxisGridMismatch {
            axis: "polar",
            axis_len: 3,
            grid_len: 2
        })
    );
    assert_eq!(
        check_balloon_shape(2, 2, (2, 2, 73)),
        Err(BalloonShapeError::BandCountMismatch {
            expected: N_BANDS,
            got: 73
        })
    );
    assert_eq!(check_balloon_shape(73, 37, (73, 37, N_BANDS)), Ok(()));
}
