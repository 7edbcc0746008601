use envi::freq::{third_octave_index, BandIdx, KILOHERTZ_BAND, N_BANDS, N_THIRD_OCT};

#[test]
fn third_octave_pick_is_every_fourth_point() {
    assert_eq!(third_octave_index(16), BandIdx(KILOHERTZ_BAND));
    for i in 0..N_THIRD_OCT {
        let b = third_octave_index(i);
        assert_eq!(b.0, i * 4);
        assert!(b.is_third_octave());
        assert_eq!(b.exponent() % 4, 0);
    }
    assert_eq!(third_octave_index(0), BandIdx(0));
    assert_eq!(third_octave_index(N_THIRD_OCT - 1), BandIdx(N_BANDS - 1));
}

#[test]
fn grid_exponents_span_minus_64_to_40() {
    assert_eq!(BandIdx(0).exponent(), -64);
    assert_eq!(BandIdx(KILOHERTZ_BAND).exponent(), 0);
    assert_eq!(BandIdx(N_BANDS - 1).exponent(), 40);
    let count = (0..N_BANDS).filter(|&i| BandIdx(i).is_third_octave()).count();
    assert_eq!(count, N_THIRD_OCT);
    assert!(!BandIdx(1).is_third_octave());
    assert!(!BandIdx(N_BANDS).is_third_octave());
}
