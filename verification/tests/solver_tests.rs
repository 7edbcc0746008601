use envi::freq::N_BANDS;
use envi::solver::{fill_chunked, ChunkCursor, ChunkError, ChunkSpan, FillError, JobRows};
use envi::tensor::{InMemorySink, SinkError};

/// Drive the cursor over receiver-major jobs and record every flushed span
/// and every job's (sub_source, global receiver) placement.
fn drive(jobs: &[(usize, usize)], n_sub: usize, cr: usize) -> (Vec<ChunkSpan>, Vec<(usize, usize)>) {
    let mut c = ChunkCursor::new(n_sub, cr).unwrap();
    let mut flushed = Vec::new();
    let mut placed = Vec::new();
    let mut offset = 0usize;
    for &(r, s) in jobs {
        let step = c.advance(r);
        if let Some(span) = step.flush {
            flushed.push(span);
        }
        if let Some(o) = step.opened {
            offset = o;
        }
        let r_local = c.place(r, s).unwrap();
        placed.push((s, offset + r_local));
    }
    if let Some(span) = c.finish() {
        flushed.push(span);
    }
    (flushed, placed)
}

fn receiver_major(n_sub: usize, n_rcv: usize) -> Vec<(usize, usize)> {
    let mut v = Vec::new();
    for r in 0..n_rcv {
        for s in 0..n_sub {
            v.push((r, s));
        }
    }
    v
}

#[test]
fn zero_chunk_receivers_is_a_typed_error() {
    assert!(matches!(
        ChunkCursor::new(1, 0),
        Err(ChunkError::DegenerateChunkSize)
    ));
}

#[test]
fn out_of_range_sub_source_is_a_typed_error() {
    let mut c = ChunkCursor::new(2, 4).unwrap();
    c.advance(0);
    assert_eq!(
        c.place(0, 2),
        Err(ChunkError::SubSourceOutOfRange {
            sub_source: 2,
            n_sub: 2
        })
    );
}

#[test]
fn chunked_plan_places_every_job_at_its_global_cell() {
    let jobs = receiver_major(3, 5);
    let (chunked, placed_chunked) = drive(&jobs, 3, 2);
    let (single, placed_single) = drive(&jobs, 3, 5);
    assert_eq!(placed_chunked, placed_single);
    for (i, &(r, s)) in jobs.iter().enumerate() {
        assert_eq!(placed_chunked[i], (s, r));
    }
    assert_eq!(
        chunked,
        vec![
            ChunkSpan { r_offset: 0, len: 2 },
            ChunkSpan { r_offset: 2, len: 2 },
            ChunkSpan { r_offset: 4, len: 1 }
        ]
    );
    assert_eq!(single, vec![ChunkSpan { r_offset: 0, len: 5 }]);
}

#[test]
fn sparse_receivers_flush_only_the_used_span() {
    // Receivers 5 and 9 with chunks of 4: chunks 1 (offset 4) and 2 (offset 8).
    let (flushed, placed) = drive(&[(5, 0), (9, 0)], 1, 4);
    assert_eq!(
        flushed,
        vec![
            ChunkSpan { r_offset: 4, len: 2 },
            ChunkSpan { r_offset: 8, len: 2 }
        ]
    );
    assert_eq!(placed, vec![(0, 5), (0, 9)]);
    // No jobs: nothing to flush.
    let (flushed, _) = drive(&[], 1, 4);
    assert!(flushed.is_empty());
}

fn rows(v: u64, finite: bool) -> JobRows<u64, u64> {
    JobRows {
        h: [v; N_BANDS],
        p: [v + 1; N_BANDS],
        h_finite: finite,
        p_finite: true,
    }
}

/// Run the verified chunked fill with integer cells: job `(r, s)` writes
/// `1000·s + r + 1` into every band of its coherent row.
fn fill(n_sub: usize, n_rcv: usize, cr: usize) -> Vec<u64> {
    let jobs: Vec<(usize, usize)> = receiver_major(n_sub, n_rcv);
    let mut sink: InMemorySink<u64, u64> = InMemorySink::new(n_sub, n_rcv, 0, 0);
    let r: Result<(), FillError<()>> = fill_chunked(&mut sink, &jobs, cr, 0, 0, |q: usize| {
        let (r, s) = jobs[q];
        Ok(rows(1000 * s as u64 + r as u64 + 1, true))
    });
    assert_eq!(r, Ok(()));
    // One working buffer bounds the resident chunk: the largest flush is
    // `min(cr, n_rcv)` receivers wide.
    assert_eq!(
        sink.high_water_bytes(),
        n_sub * cr.min(n_rcv) * N_BANDS * 24
    );
    sink.into_tensor().h_coh.into_vec()
}

#[test]
fn chunked_fill_through_the_sink_matches_single_chunk() {
    let single = fill(3, 7, 7);
    for cr in [1, 2, 3, 4, 6, 10] {
        assert_eq!(fill(3, 7, cr), single, "chunk size {cr}");
    }
    assert_eq!(single[(2 * 7 + 4) * N_BANDS + 17], 2000 + 4 + 1);
    assert_eq!(single[0], 1);
}

#[test]
fn fill_reports_each_error() {
    let mut sink: InMemorySink<u64, u64> = InMemorySink::new(2, 3, 0, 0);
    let ok = |_: usize| -> Result<JobRows<u64, u64>, ()> { Ok(rows(5, true)) };
    assert_eq!(
        fill_chunked(&mut sink, &vec![(0, 0)], 0, 0, 0, ok),
        Err(FillError::Chunk(ChunkError::DegenerateChunkSize))
    );
    assert_eq!(
        fill_chunked(&mut sink, &vec![(0, 0), (1, 2)], 2, 0, 0, ok),
        Err(FillError::Chunk(ChunkError::SubSourceOutOfRange { sub_source: 2, n_sub: 2 }))
    );
    assert_eq!(
        fill_chunked(&mut sink, &vec![(0, 0), (1, 1)], 2, 0, 0, |q: usize| {
            if q == 1 {
                Err(7u8)
            } else {
                Ok(rows(5, true))
            }
        }),
        Err(FillError::Job(7u8))
    );
    assert_eq!(
        fill_chunked(&mut sink, &vec![(0, 0)], 2, 0, 0, |_: usize| -> Result<JobRows<u64, u64>, ()> {
            Ok(rows(5, false))
        }),
        Err(FillError::Sink(SinkError::NonFinite { what: "chunk H_coh" }))
    );
    assert_eq!(
        fill_chunked(&mut sink, &vec![(3, 0)], 2, 0, 0, ok),
        Err(FillError::Sink(SinkError::ChunkOutOfBounds {
            r_offset: 2,
            chunk_len: 2,
            n_receivers: 3
        }))
    );
}

#[test]
fn overwritten_non_finite_rows_are_never_stored() {
    // A later job for the same cell overwrites a non-finite row in the
    // working buffer before the flush: the run succeeds with the finite rows.
    let mut sink: InMemorySink<u64, u64> = InMemorySink::new(1, 2, 0, 0);
    let r: Result<(), FillError<()>> =
        fill_chunked(&mut sink, &vec![(1, 0), (1, 0)], 2, 0, 0, |q: usize| Ok(rows(9, q == 1)));
    assert_eq!(r, Ok(()));
    let t = sink.into_tensor();
    assert_eq!(*t.h_coh.get(0, 1, 3), 9);
    assert_eq!(*t.h_coh.get(0, 0, 3), 0);
    // Without the overwrite the chunk is refused.
    let mut sink: InMemorySink<u64, u64> = InMemorySink::new(1, 2, 0, 0);
    let r: Result<(), FillError<()>> =
        fill_chunked(&mut sink, &vec![(0, 0), (1, 0)], 2, 0, 0, |q: usize| Ok(rows(9, q == 1)));
    assert_eq!(
        r,
        Err(FillError::Sink(SinkError::NonFinite { what: "chunk H_coh" }))
    );
    assert_eq!(sink.high_water_bytes(), 0);
}

#[test]
fn high_water_is_the_longest_flushed_span() {
    // Receivers 0, 1 | 2 with chunks of 2: spans of 2 and 1 receivers are
    // flushed, and the mark is the 2-receiver chunk.
    let mut sink: InMemorySink<u64, u64> = InMemorySink::new(2, 3, 0, 0);
    let jobs = vec![(0, 0), (1, 1), (2, 0)];
    let r: Result<(), FillError<()>> = fill_chunked(&mut sink, &jobs, 2, 0, 0, |q: usize| Ok(rows(q as u64, true)));
    assert_eq!(r, Ok(()));
    assert_eq!(sink.high_water_bytes(), 2 * 2 * N_BANDS * 24);
}

#[test]
fn fill_overwrites_only_the_flushed_receivers() {
    // A sink already holding 7 everywhere: jobs for receivers 2 and 3 with
    // chunks of 2 flush receivers 2..4 only; receivers 0, 1 and 4 keep 7,
    // and sub-source 1 of the flushed receivers takes the zero.
    let mut sink: InMemorySink<u64, u64> = InMemorySink::new(2, 5, 7, 7);
    let jobs = vec![(2, 0), (3, 0)];
    let r: Result<(), FillError<()>> = fill_chunked(&mut sink, &jobs, 2, 0, 0, |_: usize| Ok(rows(3, true)));
    assert_eq!(r, Ok(()));
    let t = sink.into_tensor();
    for rcv in 0..5 {
        let want0 = if rcv == 2 || rcv == 3 { 3 } else { 7 };
        let want1 = if rcv == 2 || rcv == 3 { 0 } else { 7 };
        assert_eq!(*t.h_coh.get(0, rcv, 11), want0, "receiver {rcv}");
        assert_eq!(*t.h_coh.get(1, rcv, 11), want1, "receiver {rcv}");
    }
}
