use envi::freq::N_BANDS;
use envi::tensor::{
    check_channel_shapes, validate_gain, Grid3, InMemorySink, SinkError, TensorPair,
    BYTES_PER_CELL_PAIR,
};
use num_complex::Complex;

fn zero() -> Complex<f64> {
    Complex::new(0.0, 0.0)
}

#[test]
fn tensor_pair_is_row_major_frequency_contiguous() {
    let t = TensorPair::zeros((2, 3, N_BANDS), zero(), 0.0f64);
    assert_eq!(t.dim(), (2, 3, N_BANDS));
    // Row-major: the flat position of (s, r, f) is (s * 3 + r) * N_BANDS + f.
    let cells: Vec<usize> = (0..2 * 3 * N_BANDS).collect();
    let g = Grid3::from_vec((2, 3, N_BANDS), cells).unwrap();
    assert_eq!(*g.get(0, 0, 1), 1);
    assert_eq!(*g.get(0, 1, 0), N_BANDS);
    assert_eq!(*g.get(1, 2, 4), (3 + 2) * N_BANDS + 4);
    assert!(Grid3::from_vec((2, 3, N_BANDS), vec![0u8; 5]).is_none());
}

#[test]
fn in_memory_sink_high_water_matches_analytic_chunk_bytes() {
    let n_sub = 3;
    let n_rcv = 5;
    let mut sink = InMemorySink::new(n_sub, n_rcv, zero(), 0.0f64);
    // Two chunks of receiver lengths 2 then 3.
    for &(r_off, len) in &[(0usize, 2usize), (2, 3)] {
        let hc = Grid3::filled((n_sub, len, N_BANDS), Complex::new(1.0, 0.0));
        let pi = Grid3::filled((n_sub, len, N_BANDS), 0.0f64);
        sink.put_chunk(r_off, &hc, &pi, true, true).unwrap();
    }
    // High-water = largest single chunk = n_sub · 3 · N_BANDS · 24.
    let want = n_sub * 3 * N_BANDS * BYTES_PER_CELL_PAIR;
    assert_eq!(sink.high_water_bytes(), want);
}

#[test]
fn in_memory_sink_rejects_mismatched_chunk_without_panic() {
    let mut sink = InMemorySink::new(3, 4, zero(), 0.0f64);
    // Wrong sub-source count (2 instead of 3).
    let hc = Grid3::filled((2, 2, N_BANDS), zero());
    let pi = Grid3::filled((2, 2, N_BANDS), 0.0f64);
    assert!(matches!(
        sink.put_chunk(0, &hc, &pi, true, true),
        Err(SinkError::SubCountMismatch { .. })
    ));
    // Out-of-bounds receiver span.
    let hc = Grid3::filled((3, 3, N_BANDS), zero());
    let pi = Grid3::filled((3, 3, N_BANDS), 0.0f64);
    assert!(matches!(
        sink.put_chunk(2, &hc, &pi, true, true),
        Err(SinkError::ChunkOutOfBounds { .. })
    ));
    // Channel-shape disagreement.
    let hc = Grid3::filled((3, 2, N_BANDS), zero());
    let pi = Grid3::filled((3, 3, N_BANDS), 0.0f64);
    assert!(matches!(
        sink.put_chunk(0, &hc, &pi, true, true),
        Err(SinkError::ChannelShapeMismatch { .. })
    ));
}

#[test]
fn sink_reports_each_chunk_error_in_order() {
    let mut sink = InMemorySink::new(2, 4, zero(), 0.0f64);
    let hc = Grid3::filled((2, 1, 7), zero());
    let pi = Grid3::filled((2, 1, 7), 0.0f64);
    assert_eq!(
        sink.put_chunk(0, &hc, &pi, true, true),
        Err(SinkError::BandCountMismatch {
            expected: N_BANDS,
            got: 7
        })
    );
    let hc = Grid3::filled((2, 2, N_BANDS), zero());
    let pi = Grid3::filled((2, 2, N_BANDS), 0.0f64);
    assert_eq!(
        sink.put_chunk(3, &hc, &pi, true, true),
        Err(SinkError::ChunkOutOfBounds {
            r_offset: 3,
            chunk_len: 2,
            n_receivers: 4
        })
    );
    assert_eq!(
        sink.put_chunk(usize::MAX, &hc, &pi, true, true),
        Err(SinkError::ChunkOutOfBounds {
            r_offset: usize::MAX,
            chunk_len: 2,
            n_receivers: 4
        })
    );
    assert_eq!(
        sink.put_chunk(0, &hc, &pi, false, true),
        Err(SinkError::NonFinite { what: "chunk H_coh" })
    );
    assert_eq!(
        sink.put_chunk(0, &hc, &pi, true, false),
        Err(SinkError::NonFinite {
            what: "chunk P_incoh_abs"
        })
    );
    assert_eq!(
        check_channel_shapes((1, 2, 3), (1, 2, 4)),
        Err(SinkError::ChannelShapeMismatch {
            h_coh: (1, 2, 3),
            p_incoh: (1, 2, 4)
        })
    );
    // A rejected chunk leaves the store untouched.
    assert_eq!(sink.high_water_bytes(), 0);
    assert_eq!(*sink.tensor().h_coh.get(1, 3, 5), zero());
}

#[test]
fn accepted_chunk_overwrites_exactly_its_receiver_span() {
    let mut sink = InMemorySink::new(2, 5, zero(), 0.0f64);
    let mut cells = Vec::new();
    for s in 0..2 {
        for r in 0..2 {
            for f in 0..N_BANDS {
                cells.push(Complex::new((100 * s + 10 * r) as f64, f as f64));
            }
        }
    }
    let hc = Grid3::from_vec((2, 2, N_BANDS), cells).unwrap();
    let pi = Grid3::filled((2, 2, N_BANDS), 0.5f64);
    sink.put_chunk(2, &hc, &pi, true, true).unwrap();
    let t = sink.tensor();
    assert_eq!(*t.h_coh.get(1, 3, 7), Complex::new(110.0, 7.0));
    assert_eq!(*t.h_coh.get(0, 2, 0), Complex::new(0.0, 0.0 + 0.0));
    assert_eq!(*t.h_coh.get(1, 2, 9), Complex::new(100.0, 9.0));
    assert_eq!(*t.p_incoh_abs.get(0, 3, 4), 0.5);
    // Outside the span: still zero.
    assert_eq!(*t.h_coh.get(1, 1, 7), zero());
    assert_eq!(*t.h_coh.get(0, 4, 7), zero());
    assert_eq!(*t.p_incoh_abs.get(1, 4, 7), 0.0);
    assert_eq!(sink.high_water_bytes(), 2 * 2 * N_BANDS * BYTES_PER_CELL_PAIR);
    let pair = sink.into_tensor();
    assert_eq!(pair.dim(), (2, 5, N_BANDS));
}

#[test]
fn gain_validation_reports_counts_then_finiteness() {
    let g = vec![vec![1.0f64; N_BANDS], vec![1.0; N_BANDS]];
    assert_eq!(validate_gain(&g, &vec![true, true], 2, N_BANDS, "w"), Ok(()));
    assert_eq!(
        validate_gain(&g, &vec![true, true], 3, N_BANDS, "w"),
        Err(SinkError::GainSubCountMismatch {
            expected: 3,
            got: 2
        })
    );
    let g2 = vec![vec![1.0f64; N_BANDS], vec![1.0; 4]];
    assert_eq!(
        validate_gain(&g2, &vec![false, true], 2, N_BANDS, "w"),
        Err(SinkError::NonFinite { what: "w" })
    );
    assert_eq!(
        validate_gain(&g2, &vec![true, true], 2, N_BANDS, "w"),
        Err(SinkError::GainBandCountMismatch {
            sub: 1,
            expected: N_BANDS,
            got: 4
        })
    );
}
