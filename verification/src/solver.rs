//! The chunk planner of the tensor-fill solver.
//!
//! The solver runs the forward chain for each `(sub_source, receiver)` job
//! and streams the results into a sink one receiver-axis chunk at a time, so
//! the full tensor need never be resident. Jobs arrive in receiver-major
//! order; consecutive jobs that share a chunk index
//! (`receiver / chunk_receivers`) fill one `[n_sub, chunk_receivers, N_BANDS]`
//! working buffer, and when the chunk index changes (or the jobs run out) the
//! used receiver span of that buffer is flushed to the sink at offset
//! `chunk_index · chunk_receivers`.
//!
//! [`ChunkCursor`] makes every decision of that loop: which span to flush,
//! when a fresh (zeroed) buffer starts, whether a job's sub-source is in
//! range, and at which buffer row a job's result goes. [`fill_chunked`] runs
//! the loop itself over an [`InMemorySink`], taking each job's band rows from
//! a caller-supplied computation; the model of the loop (`fill_prefix`,
//! `fill_result`) and its laws say what the sink holds afterwards.

use crate::freq::N_BANDS;
use crate::tensor::{cell_count, chunk_bytes, in_grid, Grid3, InMemorySink, SinkError};
use vstd::prelude::*;

verus! {

/// Errors of the chunked fill loop itself.
#[derive(Debug, PartialEq, Eq)]
pub enum ChunkError {
    /// `chunk_receivers` was 0 (no chunk can hold a receiver).
    DegenerateChunkSize,
    /// A job named a sub-source outside `0..n_sub`.
    SubSourceOutOfRange {
        /// The offending sub-source index.
        sub_source: usize,
        /// The tensor's sub-source count.
        n_sub: usize,
    },
}

/// A receiver span of the working buffer to hand to the sink:
/// `[r_offset, r_offset + len)`.
#[derive(Debug, Clone, Copy, PartialEq, Eq)]
pub struct ChunkSpan {
    /// First global receiver of the span.
    pub r_offset: usize,
    /// Number of receivers in the span (the used part of the buffer).
    pub len: usize,
}

/// What the loop does before running a job: flush the previous chunk's used
/// span, and/or start a fresh zeroed buffer at a new receiver offset.
#[derive(Debug, Clone, Copy, PartialEq, Eq)]
pub struct ChunkStep {
    /// The span of the previous chunk to flush first, if its chunk ended.
    pub flush: Option<ChunkSpan>,
    /// The receiver offset of a newly started chunk, if one starts here.
    pub opened: Option<usize>,
}

/// The chunk currently being filled: its index, its first receiver and the
/// number of buffer rows used so far.
#[derive(Debug, Clone, Copy, PartialEq, Eq)]
pub struct OpenChunk {
    /// `receiver / chunk_receivers` of the jobs in this chunk.
    pub chunk_index: usize,
    /// `chunk_index · chunk_receivers`, the chunk's first global receiver.
    pub r_offset: usize,
    /// One past the largest local receiver row written so far.
    pub used_len: usize,
}

/// The span a chunk flushes: its used receiver rows.
pub open spec fn used_span(o: OpenChunk) -> ChunkSpan {
    ChunkSpan { r_offset: o.r_offset, len: o.used_len }
}

/// The fresh chunk that holds global receiver `receiver`.
pub open spec fn chunk_of(receiver: usize, cr: usize) -> OpenChunk {
    OpenChunk {
        chunk_index: (receiver / cr) as usize,
        r_offset: ((receiver / cr) * cr) as usize,
        used_len: 0,
    }
}

/// The loop's decision before a job for `receiver`, from the open chunk
/// `open`: keep filling the open chunk when the job belongs to it; otherwise
/// flush the open chunk's used span (if any) and start the job's chunk.
pub open spec fn advance_step(open: Option<OpenChunk>, cr: usize, receiver: usize) -> (
    Option<OpenChunk>,
    ChunkStep,
) {
    match open {
        Some(o) if o.chunk_index == receiver / cr => (
            Some(o),
            ChunkStep { flush: None, opened: None },
        ),
        _ => (
            Some(chunk_of(receiver, cr)),
            ChunkStep {
                flush: match open {
                    Some(o) => Some(used_span(o)),
                    None => None,
                },
                opened: Some(chunk_of(receiver, cr).r_offset),
            },
        ),
    }
}

/// The open chunk after placing a job for `receiver` in it: the used span
/// grows to cover the job's row.
pub open spec fn place_step(o: OpenChunk, receiver: usize) -> OpenChunk {
    let r_local = receiver - o.r_offset;
    OpenChunk {
        used_len: if r_local + 1 > o.used_len {
            (r_local + 1) as usize
        } else {
            o.used_len
        },
        ..o
    }
}

/// The decision state of the chunked fill loop.
pub struct ChunkCursor {
    n_sub: usize,
    chunk_receivers: usize,
    open: Option<OpenChunk>,
}

impl ChunkCursor {
    /// The cursor's state is consistent: the chunk size is positive and the
    /// open chunk (if any) starts on a chunk boundary and uses at most one
    /// chunk of rows.
    pub closed spec fn wf(&self) -> bool {
        &&& self.chunk_receivers > 0
        &&& self.open matches Some(o) ==> {
            &&& o.r_offset == o.chunk_index * self.chunk_receivers
            &&& o.used_len <= self.chunk_receivers
        }
    }

    /// The tensor's sub-source count.
    pub closed spec fn n_sub(&self) -> usize {
        self.n_sub
    }

    /// The number of receivers per chunk.
    pub closed spec fn chunk_receivers(&self) -> usize {
        self.chunk_receivers
    }

    /// The chunk being filled, if any.
    pub closed spec fn open_chunk(&self) -> Option<OpenChunk> {
        self.open
    }

    /// Start the loop over a tensor with `n_sub` sub-sources, flushing every
    /// `chunk_receivers` receivers. A chunk size of 0 is
    /// [`ChunkError::DegenerateChunkSize`].
    pub fn new(n_sub: usize, chunk_receivers: usize) -> (r: Result<Self, ChunkError>)
        ensures
            chunk_receivers == 0 <==> r == Err::<Self, ChunkError>(ChunkError::DegenerateChunkSize),
            r is Ok <==> chunk_receivers > 0,
            r matches Ok(c) ==> c.wf() && c.n_sub() == n_sub && c.chunk_receivers()
                == chunk_receivers && c.open_chunk() is None,
    {
        if chunk_receivers == 0 {
            return Err(ChunkError::DegenerateChunkSize);
        }
        Ok(ChunkCursor { n_sub, chunk_receivers, open: None })
    }

    /// The next job targets global receiver `receiver`. If a chunk is open
    /// and the job belongs to another chunk, that chunk's used span is to be
    /// flushed first; if no chunk is open afterwards, a fresh one starts at
    /// `(receiver / chunk_receivers) · chunk_receivers`.
    pub fn advance(&mut self, receiver: usize) -> (step: ChunkStep)
        requires
            old(self).wf(),
        ensures
            final(self).wf(),
            final(self).n_sub() == old(self).n_sub(),
            final(self).chunk_receivers() == old(self).chunk_receivers(),
            (final(self).open_chunk(), step) == advance_step(
                old(self).open_chunk(),
                old(self).chunk_receivers(),
                receiver,
            ),
            step.flush matches Some(sp) ==> sp.len <= old(self).chunk_receivers() && sp.r_offset
                % old(self).chunk_receivers() == 0,
            step.opened matches Some(off) ==> off % old(self).chunk_receivers() == 0 && off
                <= receiver < off + old(self).chunk_receivers(),
    {
        let cr = self.chunk_receivers;
        let idx = receiver / cr;
        let mut flush: Option<ChunkSpan> = None;
        match self.open {
            Some(o) => {
                if o.chunk_index == idx {
                    return ChunkStep { flush: None, opened: None };
                }
                proof {
                    vstd::arithmetic::div_mod::lemma_mod_multiples_basic(
                        o.chunk_index as int,
                        cr as int,
                    );
                }
                flush = Some(ChunkSpan { r_offset: o.r_offset, len: o.used_len });
            },
            None => {},
        }
        proof {
            lemma_chunk_bounds(receiver as int, cr as int);
        }
        let r_offset = idx * cr;
        self.open = Some(OpenChunk { chunk_index: idx, r_offset, used_len: 0 });
        ChunkStep { flush, opened: Some(r_offset) }
    }

    /// Place the job for `(sub_source, receiver)` into the open chunk (the one
    /// [`Self::advance`] just chose for `receiver`). A sub-source outside
    /// `0..n_sub` is [`ChunkError::SubSourceOutOfRange`]. Otherwise the job's
    /// result goes to buffer row `r_local = receiver − r_offset`, and the used
    /// span grows to cover it.
    pub fn place(&mut self, receiver: usize, sub_source: usize) -> (r: Result<usize, ChunkError>)
        requires
            old(self).wf(),
            old(self).open_chunk() matches Some(o) && o.chunk_index == receiver
                / old(self).chunk_receivers(),
        ensures
            final(self).wf(),
            final(self).n_sub() == old(self).n_sub(),
            final(self).chunk_receivers() == old(self).chunk_receivers(),
            r is Ok <==> sub_source < old(self).n_sub(),
            sub_source >= old(self).n_sub() <==> r == Err::<usize, ChunkError>(
                ChunkError::SubSourceOutOfRange { sub_source, n_sub: old(self).n_sub() },
            ),
            r matches Ok(r_local) ==> {
                let o = old(self).open_chunk()->Some_0;
                &&& o.r_offset + r_local == receiver
                &&& r_local < old(self).chunk_receivers()
                &&& final(self).open_chunk() == Some(place_step(o, receiver))
            },
            r is Err ==> *final(self) == *old(self),
    {
        if sub_source >= self.n_sub {
            return Err(ChunkError::SubSourceOutOfRange { sub_source, n_sub: self.n_sub });
        }
        let o = self.open.unwrap();
        proof {
            let cr = self.chunk_receivers as int;
            assert(o.r_offset <= receiver < o.r_offset + cr) by (nonlinear_arith)
                requires
                    o.chunk_index == receiver as int / cr,
                    o.r_offset == o.chunk_index * cr,
                    cr > 0,
            ;
        }
        let r_local = receiver - o.r_offset;
        let used_len = if r_local + 1 > o.used_len {
            r_local + 1
        } else {
            o.used_len
        };
        self.open = Some(OpenChunk { used_len, ..o });
        Ok(r_local)
    }

    /// The jobs ran out: the used span of the open chunk (if any) is the last
    /// flush.
    pub fn finish(&mut self) -> (flush: Option<ChunkSpan>)
        requires
            old(self).wf(),
        ensures
            final(self).wf(),
            final(self).open_chunk() is None,
            flush == match old(self).open_chunk() {
                Some(o) => Some(used_span(o)),
                None => None,
            },
            flush matches Some(sp) ==> sp.len <= old(self).chunk_receivers() && sp.r_offset
                % old(self).chunk_receivers() == 0,
    {
        let flush = match self.open {
            Some(o) => {
                proof {
                    vstd::arithmetic::div_mod::lemma_mod_multiples_basic(
                        o.chunk_index as int,
                        self.chunk_receivers as int,
                    );
                }
                Some(ChunkSpan { r_offset: o.r_offset, len: o.used_len })
            },
            None => None,
        };
        self.open = None;
        flush
    }
}

/// The state of a fill run between jobs: the open chunk, the working buffer
/// `(sub_source, row) ↦ result` and the sink's tensor
/// `(sub_source, receiver) ↦ result` (one result stands for a job's whole
/// band row).
pub struct FillState<T> {
    /// The chunk being filled.
    pub open: Option<OpenChunk>,
    /// The working buffer of the open chunk.
    pub buffer: spec_fn(int, int) -> T,
    /// The tensor assembled in the sink so far.
    pub tensor: spec_fn(int, int) -> T,
}

/// The sink's tensor after a flush of `span` from `buffer`: the span's
/// receivers take the buffer rows (as an accepted chunk does, see
/// [`crate::tensor::InMemorySink::put_chunk`]), all other receivers keep
/// their values.
pub open spec fn flush_into<T>(
    tensor: spec_fn(int, int) -> T,
    buffer: spec_fn(int, int) -> T,
    span: Option<ChunkSpan>,
) -> spec_fn(int, int) -> T {
    match span {
        Some(sp) => |s: int, r: int|
            if sp.r_offset <= r < sp.r_offset + sp.len {
                buffer(s, r - sp.r_offset)
            } else {
                tensor(s, r)
            },
        None => tensor,
    }
}

/// One job `(receiver, sub_source, result)` of the fill loop: the cursor
/// advances (flushing the previous chunk and starting a zeroed buffer when
/// the chunk changes), the result is written to the job's buffer row, and the
/// cursor records the row.
pub open spec fn fill_step<T>(st: FillState<T>, cr: usize, job: (usize, usize, T), zero: T) -> FillState<
    T,
> {
    let (open1, step) = advance_step(st.open, cr, job.0);
    let tensor1 = flush_into(st.tensor, st.buffer, step.flush);
    let buffer1: spec_fn(int, int) -> T = if step.opened is Some {
        |s: int, row: int| zero
    } else {
        st.buffer
    };
    let o = open1->Some_0;
    let row = job.0 - o.r_offset;
    FillState {
        open: Some(place_step(o, job.0)),
        buffer: |s: int, rr: int|
            if s == job.1 && rr == row {
                job.2
            } else {
                buffer1(s, rr)
            },
        tensor: tensor1,
    }
}

/// The state after the first `jobs.len()` jobs, starting from no open chunk
/// and an all-zero tensor.
pub open spec fn fill_prefix<T>(jobs: Seq<(usize, usize, T)>, cr: usize, zero: T) -> FillState<T>
    decreases jobs.len(),
{
    if jobs.len() == 0 {
        FillState { open: None, buffer: |s: int, r: int| zero, tensor: |s: int, r: int| zero }
    } else {
        fill_step(fill_prefix(jobs.drop_last(), cr, zero), cr, jobs.last(), zero)
    }
}

/// The tensor a whole fill run leaves in the sink: the state after all jobs,
/// with the last open chunk flushed.
pub open spec fn fill_result<T>(jobs: Seq<(usize, usize, T)>, cr: usize, zero: T) -> spec_fn(
    int,
    int,
) -> T {
    let st = fill_prefix(jobs, cr, zero);
    flush_into(
        st.tensor,
        st.buffer,
        match st.open {
            Some(o) => Some(used_span(o)),
            None => None,
        },
    )
}

/// The receivers handed to the sink so far, after a flush of `span`.
pub open spec fn flush_touched(touched: Set<int>, span: Option<ChunkSpan>) -> Set<int> {
    match span {
        Some(sp) => touched.union(Set::new(|r: int| sp.r_offset <= r < sp.r_offset + sp.len)),
        None => touched,
    }
}

/// The receivers handed to the sink while placing `jobs`.
pub open spec fn touched_prefix<T>(jobs: Seq<(usize, usize, T)>, cr: usize, zero: T) -> Set<int>
    decreases jobs.len(),
{
    if jobs.len() == 0 {
        Set::empty()
    } else {
        let step = advance_step(fill_prefix(jobs.drop_last(), cr, zero).open, cr, jobs.last().0).1;
        flush_touched(touched_prefix(jobs.drop_last(), cr, zero), step.flush)
    }
}

/// The receivers a whole fill run hands to the sink, the last open chunk's
/// span included. Only these receivers are written.
pub open spec fn fill_touched<T>(jobs: Seq<(usize, usize, T)>, cr: usize, zero: T) -> Set<int> {
    flush_touched(
        touched_prefix(jobs, cr, zero),
        match fill_prefix(jobs, cr, zero).open {
            Some(o) => Some(used_span(o)),
            None => None,
        },
    )
}

/// Receivers not yet handed to the sink still hold `zero` in the model.
proof fn lemma_untouched_zero<T>(jobs: Seq<(usize, usize, T)>, cr: usize, zero: T)
    ensures
        forall|s: int, r: int|
            !touched_prefix(jobs, cr, zero).contains(r) ==> #[trigger] (fill_prefix(
                jobs,
                cr,
                zero,
            ).tensor)(s, r) == zero,
    decreases jobs.len(),
{
    if jobs.len() > 0 {
        lemma_untouched_zero(jobs.drop_last(), cr, zero);
    }
}

/// The result of the last job for `(sub_source, receiver)`, or `zero` when no
/// job targets that cell.
pub open spec fn last_result<T>(jobs: Seq<(usize, usize, T)>, s: int, r: int, zero: T) -> T
    decreases jobs.len(),
{
    if jobs.len() == 0 {
        zero
    } else if jobs.last().0 == r && jobs.last().1 == s {
        jobs.last().2
    } else {
        last_result(jobs.drop_last(), s, r, zero)
    }
}

/// Jobs arrive in receiver-major order (non-decreasing receiver).
pub open spec fn receiver_major<T>(jobs: Seq<(usize, usize, T)>) -> bool {
    forall|i: int, j: int| 0 <= i <= j < jobs.len() ==> #[trigger] jobs[i].0 <= #[trigger] jobs[j].0
}

proof fn lemma_last_result_untouched<T>(jobs: Seq<(usize, usize, T)>, s: int, r: int, zero: T)
    requires
        forall|i: int| 0 <= i < jobs.len() ==> #[trigger] jobs[i].0 != r,
    ensures
        last_result(jobs, s, r, zero) == zero,
    decreases jobs.len(),
{
    if jobs.len() > 0 {
        assert(jobs.last() == jobs[jobs.len() - 1]);
        assert forall|i: int| 0 <= i < jobs.drop_last().len() implies #[trigger] jobs.drop_last()[i].0
            != r by {
            assert(jobs.drop_last()[i] == jobs[i]);
        }
        lemma_last_result_untouched(jobs.drop_last(), s, r, zero);
    }
}

proof fn lemma_chunk_bounds(r: int, cr: int)
    requires
        r >= 0,
        cr > 0,
    ensures
        0 <= (r / cr) * cr <= r < (r / cr) * cr + cr,
        r / cr >= 0,
        ((r / cr) * cr) % cr == 0,
{
    vstd::arithmetic::div_mod::lemma_mod_multiples_basic(r / cr, cr);
    assert(0 <= (r / cr) * cr <= r < (r / cr) * cr + cr) by (nonlinear_arith)
        requires
            r >= 0,
            cr > 0,
    ;
    assert(r / cr >= 0) by (nonlinear_arith)
        requires
            r >= 0,
            cr > 0,
    ;
}

/// The cursor's decisions in receiver terms, for chunks of `cr` receivers:
/// a job stays in the open chunk exactly when its receiver lies in that
/// chunk's range `[r_offset, r_offset + cr)`; otherwise the open chunk's used
/// rows are flushed and the chunk starting at `receiver − receiver mod cr` is
/// opened (with nothing to flush when no chunk was open). Placing a job in
/// the open chunk grows its used rows to cover the job's local row
/// `receiver − r_offset` and changes nothing else.
pub proof fn lemma_cursor_steps_follow_receivers(o: OpenChunk, cr: usize, receiver: usize)
    requires
        cr > 0,
        o.r_offset == o.chunk_index * cr,
    ensures
        advance_step(Some(o), cr, receiver).1.flush is None <==> o.r_offset <= receiver < o.r_offset
            + cr,
        o.r_offset <= receiver < o.r_offset + cr ==> advance_step(Some(o), cr, receiver) == (
            Some(o),
            (ChunkStep { flush: None, opened: None }),
        ),
        !(o.r_offset <= receiver < o.r_offset + cr) ==> advance_step(Some(o), cr, receiver).1 == (
        ChunkStep {
            flush: Some((ChunkSpan { r_offset: o.r_offset, len: o.used_len })),
            opened: Some((receiver - receiver % cr) as usize),
        }),
        advance_step(None, cr, receiver).1 == (ChunkStep {
            flush: None,
            opened: Some((receiver - receiver % cr) as usize),
        }),
        advance_step(None, cr, receiver).0 matches Some(n) && n.r_offset == receiver - receiver % cr
            && n.used_len == 0,
        o.r_offset <= receiver < o.r_offset + cr ==> {
            &&& place_step(o, receiver).r_offset == o.r_offset
            &&& place_step(o, receiver).chunk_index == o.chunk_index
            &&& place_step(o, receiver).used_len == if receiver - o.r_offset + 1 > o.used_len {
                receiver - o.r_offset + 1
            } else {
                o.used_len as int
            }
        },
{
    let r = receiver as int;
    let c = cr as int;
    let q = o.chunk_index as int;
    lemma_chunk_bounds(r, c);
    vstd::arithmetic::div_mod::lemma_fundamental_div_mod(r, c);
    assert((r / c) * c == c * (r / c)) by (nonlinear_arith);
    if o.r_offset <= receiver < o.r_offset + cr {
        vstd::arithmetic::div_mod::lemma_fundamental_div_mod_converse(r, c, q, r - q * c);
    } else if q == r / c {
        assert(false);
    }
}

proof fn lemma_later_chunk(r1: int, r2: int, cr: int)
    requires
        0 <= r1 <= r2,
        cr > 0,
    ensures
        r1 / cr <= r2 / cr,
        r1 / cr != r2 / cr ==> (r1 / cr) * cr + cr <= (r2 / cr) * cr,
{
    assert(r1 / cr <= r2 / cr) by (nonlinear_arith)
        requires
            0 <= r1 <= r2,
            cr > 0,
    ;
    if r1 / cr != r2 / cr {
        assert((r1 / cr) * cr + cr <= (r2 / cr) * cr) by (nonlinear_arith)
            requires
                r1 / cr < r2 / cr,
                cr > 0,
        ;
    }
}

/// The invariant of a fill run over receiver-major jobs: the open chunk is
/// the last job's chunk and its used span covers every job so far; the
/// buffer holds the latest result of every cell of the open chunk; the
/// tensor holds the latest result of every cell before the open chunk and
/// zero from it on.
proof fn lemma_fill_prefix<T>(jobs: Seq<(usize, usize, T)>, cr: usize, zero: T)
    requires
        cr > 0,
        receiver_major(jobs),
    ensures
        jobs.len() == 0 ==> fill_prefix(jobs, cr, zero).open is None && forall|s: int, r: int|
            #[trigger] (fill_prefix(jobs, cr, zero).tensor)(s, r) == zero,
        jobs.len() > 0 ==> ({
            let st = fill_prefix(jobs, cr, zero);
            let last = jobs.last().0;
            &&& st.open is Some
            &&& st.open->Some_0 == OpenChunk {
                used_len: st.open->Some_0.used_len,
                ..chunk_of(last, cr)
            }
            &&& st.open->Some_0.used_len <= cr
            &&& last < st.open->Some_0.r_offset + st.open->Some_0.used_len
            &&& forall|i: int| 0 <= i < jobs.len() ==> #[trigger] jobs[i].0
                < st.open->Some_0.r_offset + st.open->Some_0.used_len
            &&& forall|s: int, row: int|
                0 <= row < cr ==> #[trigger] (st.buffer)(s, row) == last_result(
                    jobs,
                    s,
                    st.open->Some_0.r_offset + row,
                    zero,
                )
            &&& forall|s: int, r: int| #[trigger]
                (st.tensor)(s, r) == if r < st.open->Some_0.r_offset {
                    last_result(jobs, s, r, zero)
                } else {
                    zero
                }
        }),
    decreases jobs.len(),
{
    if jobs.len() == 0 {
        return;
    }
    let prev = jobs.drop_last();
    assert forall|i: int, j: int| 0 <= i <= j < prev.len() implies #[trigger] prev[i].0
        <= #[trigger] prev[j].0 by {
        assert(prev[i] == jobs[i]);
        assert(prev[j] == jobs[j]);
    }
    lemma_fill_prefix(prev, cr, zero);
    let job = jobs.last();
    assert(job == jobs[jobs.len() - 1]);
    let r = job.0;
    let st0 = fill_prefix(prev, cr, zero);
    let st = fill_prefix(jobs, cr, zero);
    assert(st == fill_step(st0, cr, job, zero));
    lemma_chunk_bounds(r as int, cr as int);
    let c = chunk_of(r, cr);
    let (open1, step) = advance_step(st0.open, cr, r);
    let tensor1 = flush_into(st0.tensor, st0.buffer, step.flush);
    let o1 = open1->Some_0;
    assert(o1 == OpenChunk { used_len: o1.used_len, ..c });
    let row = r - o1.r_offset;
    assert(0 <= row < cr);
    let o = st.open->Some_0;
    assert(o == place_step(o1, r));
    assert(last_result(jobs, job.1 as int, r as int, zero) == job.2);
    if prev.len() == 0 {
        assert(step.opened is Some);
        assert(o1 == c);
        assert forall|i: int| 0 <= i < jobs.len() implies #[trigger] jobs[i].0 < o.r_offset
            + o.used_len by {
            assert(i == 0);
        }
        assert forall|s: int, rr: int| 0 <= rr < cr implies #[trigger] (st.buffer)(s, rr)
            == last_result(jobs, s, o.r_offset + rr, zero) by {
            if !(s == job.1 && rr == row) {
                assert(last_result(prev, s, o.r_offset + rr, zero) == zero);
            }
        }
        assert forall|s: int, rr: int| #[trigger]
            (st.tensor)(s, rr) == if rr < o.r_offset {
                last_result(jobs, s, rr, zero)
            } else {
                zero
            } by {
            assert(step.flush is None);
            assert((st0.tensor)(s, rr) == zero);
            assert((st.tensor)(s, rr) == (st0.tensor)(s, rr));
            if rr < o.r_offset {
                assert(rr != r);
                assert(last_result(prev, s, rr, zero) == zero);
            }
        }
    } else {
        let p = st0.open->Some_0;
        let plast = prev.last().0;
        assert(prev.last() == jobs[jobs.len() - 2]);
        assert(plast <= r);
        lemma_later_chunk(plast as int, r as int, cr as int);
        lemma_chunk_bounds(plast as int, cr as int);
        if p.chunk_index == r / cr {
            // Same chunk: the buffer row of this job takes its result.
            assert(open1 == st0.open);
            assert(step.flush is None && step.opened is None);
            assert(tensor1 == st0.tensor);
            assert(o1 == p);
            assert forall|i: int| 0 <= i < jobs.len() implies #[trigger] jobs[i].0 < o.r_offset
                + o.used_len by {
                if i < jobs.len() - 1 {
                    assert(prev[i] == jobs[i]);
                }
            }
            assert forall|s: int, rr: int| 0 <= rr < cr implies #[trigger] (st.buffer)(s, rr)
                == last_result(jobs, s, o.r_offset + rr, zero) by {
                if !(s == job.1 && rr == row) {
                    assert((st0.buffer)(s, rr) == last_result(prev, s, p.r_offset + rr, zero));
                }
            }
            assert forall|s: int, rr: int| #[trigger]
                (st.tensor)(s, rr) == if rr < o.r_offset {
                    last_result(jobs, s, rr, zero)
                } else {
                    zero
                } by {
                assert((st0.tensor)(s, rr) == if rr < p.r_offset {
                    last_result(prev, s, rr, zero)
                } else {
                    zero
                });
                if rr < o.r_offset {
                    assert(rr != r);
                }
            }
        } else {
            // A new chunk: the previous one is flushed, the buffer restarts at zero.
            assert(step.flush == Some(used_span(p)));
            assert(step.opened is Some);
            assert(o1 == c);
            assert(p.r_offset + cr <= c.r_offset);
            assert forall|i: int| 0 <= i < jobs.len() implies #[trigger] jobs[i].0 < o.r_offset
                + o.used_len by {
                if i < jobs.len() - 1 {
                    assert(prev[i] == jobs[i]);
                    assert(jobs[i].0 <= r);
                }
            }
            assert forall|s: int, rr: int| 0 <= rr < cr implies #[trigger] (st.buffer)(s, rr)
                == last_result(jobs, s, o.r_offset + rr, zero) by {
                if !(s == job.1 && rr == row) {
                    assert forall|i: int| 0 <= i < prev.len() implies #[trigger] prev[i].0
                        != o.r_offset + rr by {
                        assert(prev[i].0 < p.r_offset + p.used_len);
                    }
                    lemma_last_result_untouched(prev, s, o.r_offset + rr, zero);
                }
            }
            assert forall|s: int, rr: int| #[trigger]
                (st.tensor)(s, rr) == if rr < o.r_offset {
                    last_result(jobs, s, rr, zero)
                } else {
                    zero
                } by {
                assert((st0.tensor)(s, rr) == if rr < p.r_offset {
                    last_result(prev, s, rr, zero)
                } else {
                    zero
                });
                if p.r_offset <= rr < p.r_offset + p.used_len {
                    assert((st0.buffer)(s, rr - p.r_offset) == last_result(
                        prev,
                        s,
                        p.r_offset + (rr - p.r_offset),
                        zero,
                    ));
                    assert(rr != r);
                } else if rr >= p.r_offset + p.used_len && rr < o.r_offset {
                    assert forall|i: int| 0 <= i < prev.len() implies #[trigger] prev[i].0 != rr by {
                    }
                    lemma_last_result_untouched(prev, s, rr, zero);
                    assert(rr != r);
                } else if rr < p.r_offset {
                    assert(rr != r);
                }
            }
        }
    }
}

/// The chunked fill puts every job's result at its own global cell: after a
/// run over receiver-major jobs, every `(sub_source, receiver)` cell of the
/// tensor holds the result of the last job for that cell, and every cell no
/// job targets keeps the zero. In particular the assembled tensor does not
/// depend on the chunk size.
pub proof fn lemma_chunked_fill_is_index_for_index<T>(
    jobs: Seq<(usize, usize, T)>,
    cr: usize,
    zero: T,
    s: int,
    r: int,
)
    requires
        cr > 0,
        receiver_major(jobs),
    ensures
        fill_result(jobs, cr, zero)(s, r) == last_result(jobs, s, r, zero),
{
    lemma_fill_prefix(jobs, cr, zero);
    let st = fill_prefix(jobs, cr, zero);
    if jobs.len() == 0 {
        assert(last_result(jobs, s, r, zero) == zero);
    } else {
        let o = st.open->Some_0;
        if o.r_offset <= r < o.r_offset + o.used_len {
            assert((st.buffer)(s, r - o.r_offset) == last_result(
                jobs,
                s,
                o.r_offset + (r - o.r_offset),
                zero,
            ));
        } else if r >= o.r_offset + o.used_len {
            assert forall|i: int| 0 <= i < jobs.len() implies #[trigger] jobs[i].0 != r by {}
            lemma_last_result_untouched(jobs, s, r, zero);
        } else {
            assert((st.tensor)(s, r) == last_result(jobs, s, r, zero));
        }
    }
}

/// Two chunk sizes assemble the same tensor from the same receiver-major jobs.
pub proof fn lemma_chunk_size_does_not_change_the_tensor<T>(
    jobs: Seq<(usize, usize, T)>,
    cr1: usize,
    cr2: usize,
    zero: T,
    s: int,
    r: int,
)
    requires
        cr1 > 0,
        cr2 > 0,
        receiver_major(jobs),
    ensures
        fill_result(jobs, cr1, zero)(s, r) == fill_result(jobs, cr2, zero)(s, r),
{
    lemma_chunked_fill_is_index_for_index(jobs, cr1, zero, s, r);
    lemma_chunked_fill_is_index_for_index(jobs, cr2, zero, s, r);
}


/// One job's result: its coherent and incoherent band rows, and whether each
/// row is finite.
pub struct JobRows<C, E> {
    /// Coherent value per band.
    pub h: [C; N_BANDS],
    /// Incoherent value per band.
    pub p: [E; N_BANDS],
    /// Every value of `h` is finite.
    pub h_finite: bool,
    /// Every value of `p` is finite.
    pub p_finite: bool,
}

/// Errors of a chunked fill run.
#[derive(Debug, PartialEq, Eq)]
pub enum FillError<X> {
    /// The chunk size was 0, or a job named a sub-source out of range.
    Chunk(ChunkError),
    /// The sink rejected a flushed chunk.
    Sink(SinkError),
    /// A job's computation failed.
    Job(X),
}

/// The fill model's jobs `(receiver, sub_source, rows)` of a run whose jobs
/// returned `rows`.
pub open spec fn job_model<C, E>(jobs: Seq<(usize, usize)>, rows: Seq<JobRows<C, E>>) -> Seq<
    (usize, usize, Option<([C; N_BANDS], [E; N_BANDS])>),
> {
    Seq::new(jobs.len(), |q: int| (jobs[q].0, jobs[q].1, Some((rows[q].h, rows[q].p))))
}

/// Band `k` of the coherent row of a model cell (`zero` for an empty cell).
pub open spec fn h_value<C, E>(cell: Option<([C; N_BANDS], [E; N_BANDS])>, k: int, zero: C) -> C {
    match cell {
        Some(r) => r.0@[k],
        None => zero,
    }
}

/// Band `k` of the incoherent row of a model cell (`zero` for an empty cell).
pub open spec fn p_value<C, E>(cell: Option<([C; N_BANDS], [E; N_BANDS])>, k: int, zero: E) -> E {
    match cell {
        Some(r) => r.1@[k],
        None => zero,
    }
}

/// `rows[q]` is a result the job computation `f` can return for job `q`.
pub open spec fn all_returned<C, E, X, F: Fn(usize) -> Result<JobRows<C, E>, X>>(
    f: F,
    rows: Seq<JobRows<C, E>>,
) -> bool {
    forall|q: int|
        #![trigger rows[q]]
        0 <= q < rows.len() ==> call_ensures(f, (q as usize,), Ok::<JobRows<C, E>, X>(rows[q]))
}

/// The larger of two integers.
pub open spec fn max_int(a: int, b: int) -> int {
    if a >= b {
        a
    } else {
        b
    }
}

/// The longest span flushed by the fill loop while placing `jobs` (the flush
/// that precedes each job's chunk change).
pub open spec fn flushed_max<T>(jobs: Seq<(usize, usize, T)>, cr: usize, zero: T) -> nat
    decreases jobs.len(),
{
    if jobs.len() == 0 {
        0
    } else {
        let prev = flushed_max(jobs.drop_last(), cr, zero);
        let step = advance_step(fill_prefix(jobs.drop_last(), cr, zero).open, cr, jobs.last().0).1;
        match step.flush {
            Some(sp) => if sp.len > prev {
                sp.len as nat
            } else {
                prev
            },
            None => prev,
        }
    }
}

/// The longest receiver span a whole fill run hands to the sink: every flush
/// during the run and the final flush of the last open chunk.
pub open spec fn fill_max_span<T>(jobs: Seq<(usize, usize, T)>, cr: usize, zero: T) -> nat {
    let m = flushed_max(jobs, cr, zero);
    match fill_prefix(jobs, cr, zero).open {
        Some(o) => if o.used_len > m {
            o.used_len as nat
        } else {
            m
        },
        None => m,
    }
}

/// Job `q` is not repeated (same receiver and sub-source) before `end`.
pub open spec fn no_repeat(jobs: Seq<(usize, usize)>, q: int, end: int) -> bool {
    forall|q2: int| q < q2 < end ==> #[trigger] jobs[q2] != jobs[q]
}

/// Every job before `end` that no later job before `end` overwrites
/// returned finite rows.
pub open spec fn last_rows_finite<C, E>(
    jobs: Seq<(usize, usize)>,
    rows: Seq<JobRows<C, E>>,
    end: int,
) -> bool {
    forall|q: int|
        #![trigger rows[q]]
        0 <= q < end && no_repeat(jobs, q, end) ==> rows[q].h_finite && rows[q].p_finite
}

/// The jobs `cs .. i` of the open chunk lie in its used span, with their
/// sub-sources in range.
spec fn open_span(jobs: Seq<(usize, usize)>, cs: int, i: int, o: OpenChunk, n_sub: usize) -> bool {
    forall|q: int|
        cs <= q < i ==> o.r_offset <= #[trigger] jobs[q].0 < o.r_offset + o.used_len && jobs[q].1
            < n_sub
}

/// The flags of the open chunk hold the finiteness of the last job of each
/// of its cells.
spec fn open_flags<C, E>(
    jobs: Seq<(usize, usize)>,
    rows: Seq<JobRows<C, E>>,
    cs: int,
    i: int,
    off: int,
    hf: Grid3<bool>,
    pf: Grid3<bool>,
) -> bool {
    forall|q: int|
        #![trigger rows[q]]
        cs <= q < i && no_repeat(jobs, q, i) ==> hf.cell(jobs[q].1 as int, jobs[q].0 - off, 0)
            == rows[q].h_finite && pf.cell(jobs[q].1 as int, jobs[q].0 - off, 0) == rows[q].p_finite
}

/// The jobs `cs .. i` of the open chunk sit on rows below `cr`.
spec fn open_rows_fit(jobs: Seq<(usize, usize)>, cs: int, i: int, o: OpenChunk, cr: usize) -> bool {
    forall|q: int| cs <= q < i ==> #[trigger] jobs[q].0 - o.r_offset < cr
}

/// The flushed jobs `.. cs` have receivers and sub-sources in range.
spec fn settled_in_range(jobs: Seq<(usize, usize)>, cs: int, n_sub: usize, n_rcv: usize) -> bool {
    forall|q: int| 0 <= q < cs ==> #[trigger] jobs[q].0 < n_rcv && jobs[q].1 < n_sub
}

/// Every flag of a `[_, _, 1]` flag grid is set.
spec fn flags_set(f: Grid3<bool>) -> bool {
    forall|i: int, j: int| in_grid(f.dims(), i, j, 0) ==> #[trigger] f.cell(i, j, 0)
}

/// Job `q < n` of `f` can fail with `e`.
pub open spec fn job_can_fail<C, E, X, F: Fn(usize) -> Result<JobRows<C, E>, X>>(
    f: F,
    n: nat,
    e: X,
) -> bool {
    exists|q: usize| q < n && #[trigger] call_ensures(f, (q,), Err::<JobRows<C, E>, X>(e))
}

/// Some job's rows were reported not finite.
pub open spec fn some_non_finite<C, E>(rows: Seq<JobRows<C, E>>) -> bool {
    exists|q: int| #![trigger rows[q]] 0 <= q < rows.len() && !(rows[q].h_finite && rows[q].p_finite)
}

/// Every job's sub-source and receiver lie in a tensor of shape `shape`.
pub open spec fn jobs_in_range(jobs: Seq<(usize, usize)>, shape: (usize, usize, usize)) -> bool {
    forall|q: int| 0 <= q < jobs.len() ==> #[trigger] jobs[q].1 < shape.0 && jobs[q].0 < shape.1
}

/// Every cell of the sink holds the channel's zero.
pub open spec fn fresh_sink<C, E>(sink: InMemorySink<C, E>, h_zero: C, p_zero: E) -> bool {
    forall|i: int, j: int, k: int|
        in_grid(sink.shape(), i, j, k) ==> #[trigger] sink.h_at(i, j, k) == h_zero && sink.p_at(
            i,
            j,
            k,
        ) == p_zero
}

/// The sink holds the model tensor `t` at the receivers in `touched` and
/// its earlier contents `before` everywhere else.
spec fn sink_keeps<C, E>(
    sink: InMemorySink<C, E>,
    before: InMemorySink<C, E>,
    t: spec_fn(int, int) -> Option<([C; N_BANDS], [E; N_BANDS])>,
    touched: Set<int>,
    h_zero: C,
    p_zero: E,
) -> bool {
    forall|i: int, j: int, k: int|
        in_grid(sink.shape(), i, j, k) ==> #[trigger] sink.h_at(i, j, k) == (if touched.contains(j) {
            h_value(t(i, j), k, h_zero)
        } else {
            before.h_at(i, j, k)
        }) && sink.p_at(i, j, k) == (if touched.contains(j) {
            p_value(t(i, j), k, p_zero)
        } else {
            before.p_at(i, j, k)
        })
}

/// The working buffers hold the model buffer `b`.
spec fn buffer_holds<C, E>(
    hb: Grid3<C>,
    pb: Grid3<E>,
    b: spec_fn(int, int) -> Option<([C; N_BANDS], [E; N_BANDS])>,
    h_zero: C,
    p_zero: E,
) -> bool {
    forall|i: int, j: int, k: int|
        in_grid(hb.dims(), i, j, k) ==> #[trigger] hb.cell(i, j, k) == h_value(b(i, j), k, h_zero)
            && pb.cell(i, j, k) == p_value(b(i, j), k, p_zero)
}

/// Setting the flags of one row to a job's finiteness keeps "some flag is
/// clear only if some job so far was not finite".
proof fn lemma_flags_step<C, E>(
    hf1: Grid3<bool>,
    pf1: Grid3<bool>,
    hf: Grid3<bool>,
    pf: Grid3<bool>,
    rows: Seq<JobRows<C, E>>,
    jr: JobRows<C, E>,
    a0: int,
    b0: int,
)
    requires
        hf1.dims() == hf.dims(),
        pf1.dims() == pf.dims(),
        hf.dims() == pf.dims(),
        !(flags_set(hf1) && flags_set(pf1)) ==> some_non_finite(rows),
        forall|a: int, b: int, c: int|
            in_grid(hf1.dims(), a, b, c) ==> #[trigger] hf.cell(a, b, c) == if a == a0 && b == b0 && c
                == 0 {
                jr.h_finite
            } else {
                hf1.cell(a, b, c)
            },
        forall|a: int, b: int, c: int|
            in_grid(pf1.dims(), a, b, c) ==> #[trigger] pf.cell(a, b, c) == if a == a0 && b == b0 && c
                == 0 {
                jr.p_finite
            } else {
                pf1.cell(a, b, c)
            },
    ensures
        !(flags_set(hf) && flags_set(pf)) ==> some_non_finite(rows.push(jr)),
{
    let rows2 = rows.push(jr);
    if !(flags_set(hf) && flags_set(pf)) {
        if !(jr.h_finite && jr.p_finite) {
            if !some_non_finite(rows2) {
                assert(rows2.len() == rows.len() + 1);
                assert(rows2[rows.len() as int] == jr);
                assert(rows2[rows.len() as int].h_finite && rows2[rows.len() as int].p_finite);
                assert(false);
            }
        } else {
            if flags_set(hf1) && flags_set(pf1) {
                assert forall|a: int, b: int| in_grid(hf.dims(), a, b, 0) implies #[trigger] hf.cell(a, b, 0) by {
                    assert(hf1.cell(a, b, 0));
                }
                assert forall|a: int, b: int| in_grid(pf.dims(), a, b, 0) implies #[trigger] pf.cell(a, b, 0) by {
                    assert(pf1.cell(a, b, 0));
                }
                assert(false);
            }
            assert(some_non_finite(rows));
            if !some_non_finite(rows2) {
                assert forall|q: int| #![trigger rows[q]] 0 <= q < rows.len() implies (rows[q].h_finite
                    && rows[q].p_finite) by {
                    assert(rows2[q] == rows[q]);
                    assert(rows2[q].h_finite && rows2[q].p_finite);
                }
                assert(false);
            }
        }
        assert(some_non_finite(rows2));
    }
}

/// Byte footprints grow with the span: the larger of an old mark and two
/// chunks' bytes is the larger of the mark and the longer chunk's bytes.
proof fn lemma_chunk_bytes_max(old_hw: int, n: usize, a: nat, b: nat)
    requires
        old_hw >= 0,
        a <= usize::MAX,
        b <= usize::MAX,
    ensures
        max_int(
            max_int(old_hw, chunk_bytes((n, a as usize, N_BANDS))),
            chunk_bytes((n, b as usize, N_BANDS)),
        ) == max_int(old_hw, chunk_bytes((n, (if b > a { b } else { a }) as usize, N_BANDS))),
        chunk_bytes((n, 0usize, N_BANDS)) == 0,
{
    assert(chunk_bytes((n, 0usize, N_BANDS)) == 0) by (nonlinear_arith);
    let au = a as usize;
    let bu = b as usize;
    assert(au == a && bu == b);
    if a <= b {
        assert(chunk_bytes((n, au, N_BANDS)) <= chunk_bytes((n, bu, N_BANDS))) by (nonlinear_arith)
            requires
                au <= bu,
        ;
    } else {
        assert(chunk_bytes((n, bu, N_BANDS)) <= chunk_bytes((n, au, N_BANDS))) by (nonlinear_arith)
            requires
                bu <= au,
        ;
    }
}

/// A flushed chunk whose flags were all set settles its jobs: their
/// receivers are in range and every job not overwritten later returned
/// finite rows.
proof fn lemma_settle_chunk<C, E>(
    jobs: Seq<(usize, usize)>,
    rows: Seq<JobRows<C, E>>,
    cs: int,
    i: int,
    o: OpenChunk,
    hf: Grid3<bool>,
    pf: Grid3<bool>,
    n_sub: usize,
    n_rcv: usize,
)
    requires
        0 <= cs <= i <= jobs.len(),
        rows.len() == i,
        settled_in_range(jobs, cs, n_sub, n_rcv),
        last_rows_finite(jobs, rows, cs),
        open_span(jobs, cs, i, o, n_sub),
        open_flags(jobs, rows, cs, i, o.r_offset as int, hf, pf),
        o.r_offset + o.used_len <= n_rcv,
        forall|a: int, b: int|
            0 <= a < n_sub && 0 <= b < o.used_len ==> #[trigger] hf.cell(a, b, 0) && pf.cell(a, b, 0),
    ensures
        settled_in_range(jobs, i, n_sub, n_rcv),
        last_rows_finite(jobs, rows, i),
{
    assert forall|q: int| 0 <= q < i implies #[trigger] jobs[q].0 < n_rcv && jobs[q].1 < n_sub by {
        if q >= cs {
            assert(o.r_offset <= jobs[q].0 < o.r_offset + o.used_len && jobs[q].1 < n_sub);
        }
    }
    assert forall|q: int| #![trigger rows[q]] 0 <= q < i && no_repeat(jobs, q, i) implies rows[q].h_finite
        && rows[q].p_finite by {
        if q < cs {
            assert forall|q2: int| q < q2 < cs implies #[trigger] jobs[q2] != jobs[q] by {
                assert(q < q2 < i);
            }
            assert(no_repeat(jobs, q, cs));
        } else {
            assert(o.r_offset <= jobs[q].0 < o.r_offset + o.used_len && jobs[q].1 < n_sub);
            assert(hf.cell(jobs[q].1 as int, jobs[q].0 - o.r_offset, 0) && pf.cell(
                jobs[q].1 as int,
                jobs[q].0 - o.r_offset,
                0,
            ));
        }
    }
}

/// Placing job `i` at row `r_local` of the open chunk `o` and recording its
/// finiteness flags keeps the open chunk's span and flag facts.
proof fn lemma_place_job<C, E>(
    jobs: Seq<(usize, usize)>,
    rows: Seq<JobRows<C, E>>,
    jr: JobRows<C, E>,
    cs: int,
    i: int,
    o: OpenChunk,
    r_local: int,
    hf1: Grid3<bool>,
    pf1: Grid3<bool>,
    hf: Grid3<bool>,
    pf: Grid3<bool>,
    n_sub: usize,
    n_rcv: usize,
)
    requires
        0 <= cs <= i < jobs.len(),
        rows.len() == i,
        jobs[i].1 < n_sub,
        o.r_offset + r_local == jobs[i].0,
        0 <= r_local,
        open_span(jobs, cs, i, o, n_sub),
        open_flags(jobs, rows, cs, i, o.r_offset as int, hf1, pf1),
        last_rows_finite(jobs, rows, cs),
        hf1.dims().0 == n_sub,
        hf.dims() == hf1.dims(),
        pf1.dims() == hf1.dims(),
        pf.dims() == hf1.dims(),
        r_local < hf1.dims().1,
        hf1.dims().2 == 1,
        forall|a: int, b: int, c: int|
            in_grid(hf1.dims(), a, b, c) ==> #[trigger] hf.cell(a, b, c) == if a == jobs[i].1
                && b == r_local && c == 0 {
                jr.h_finite
            } else {
                hf1.cell(a, b, c)
            },
        forall|a: int, b: int, c: int|
            in_grid(pf1.dims(), a, b, c) ==> #[trigger] pf.cell(a, b, c) == if a == jobs[i].1
                && b == r_local && c == 0 {
                jr.p_finite
            } else {
                pf1.cell(a, b, c)
            },
        forall|q: int| cs <= q < i ==> #[trigger] jobs[q].0 - o.r_offset < hf1.dims().1,
    ensures
        open_span(jobs, cs, i + 1, place_step(o, jobs[i].0), n_sub),
        open_flags(jobs, rows.push(jr), cs, i + 1, o.r_offset as int, hf, pf),
        last_rows_finite(jobs, rows.push(jr), cs),
{
    let rows2 = rows.push(jr);
    let o2 = place_step(o, jobs[i].0);
    assert forall|q: int| cs <= q < i + 1 implies o2.r_offset <= #[trigger] jobs[q].0 < o2.r_offset
        + o2.used_len && jobs[q].1 < n_sub by {
        if q < i {
            assert(o.r_offset <= jobs[q].0 < o.r_offset + o.used_len && jobs[q].1 < n_sub);
        }
    }
    assert forall|q: int| #![trigger rows2[q]] cs <= q < i + 1 && no_repeat(jobs, q, i + 1) implies hf.cell(
        jobs[q].1 as int,
        jobs[q].0 - o.r_offset,
        0,
    ) == rows2[q].h_finite && pf.cell(jobs[q].1 as int, jobs[q].0 - o.r_offset, 0)
        == rows2[q].p_finite by {
        if q == i {
            assert(rows2[q] == jr);
            assert(in_grid(hf1.dims(), jobs[q].1 as int, jobs[q].0 - o.r_offset, 0));
        } else {
            assert(rows2[q] == rows[q]);
            assert(jobs[i] != jobs[q]);
            assert forall|q2: int| q < q2 < i implies #[trigger] jobs[q2] != jobs[q] by {
                assert(q < q2 < i + 1);
            }
            assert(no_repeat(jobs, q, i));
            assert(o.r_offset <= jobs[q].0 < o.r_offset + o.used_len && jobs[q].1 < n_sub);
            assert(in_grid(hf1.dims(), jobs[q].1 as int, jobs[q].0 - o.r_offset, 0));
            assert(hf1.cell(jobs[q].1 as int, jobs[q].0 - o.r_offset, 0) == rows[q].h_finite);
        }
    }
    assert forall|q: int| #![trigger rows2[q]] 0 <= q < cs && no_repeat(jobs, q, cs) implies rows2[q].h_finite
        && rows2[q].p_finite by {
        assert(rows2[q] == rows[q]);
        assert(rows[q].h_finite && rows[q].p_finite);
    }
}

/// Flushing `span` of the working buffers (as `flush_span` does on success)
/// keeps the sink in step with the model tensor and the touched receivers.
proof fn lemma_flush_keeps<C, E>(
    pre: InMemorySink<C, E>,
    post: InMemorySink<C, E>,
    before: InMemorySink<C, E>,
    t: spec_fn(int, int) -> Option<([C; N_BANDS], [E; N_BANDS])>,
    buf: spec_fn(int, int) -> Option<([C; N_BANDS], [E; N_BANDS])>,
    touched: Set<int>,
    span: Option<ChunkSpan>,
    hb: Grid3<C>,
    pb: Grid3<E>,
    h_zero: C,
    p_zero: E,
)
    requires
        sink_keeps(pre, before, t, touched, h_zero, p_zero),
        buffer_holds(hb, pb, buf, h_zero, p_zero),
        post.shape() == pre.shape(),
        span is None ==> post == pre,
        span matches Some(sp) ==> {
            &&& sp.len <= hb.dims().1
            &&& hb.dims().0 == pre.shape().0
            &&& hb.dims().2 == pre.shape().2
            &&& forall|i: int, j: int, k: int|
                in_grid(pre.shape(), i, j, k) ==> if sp.r_offset <= j < sp.r_offset + sp.len {
                    #[trigger] post.h_at(i, j, k) == hb.cell(i, j - sp.r_offset, k) && post.p_at(i, j, k)
                        == pb.cell(i, j - sp.r_offset, k)
                } else {
                    post.h_at(i, j, k) == pre.h_at(i, j, k) && post.p_at(i, j, k) == pre.p_at(i, j, k)
                }
        },
    ensures
        sink_keeps(post, before, flush_into(t, buf, span), flush_touched(touched, span), h_zero, p_zero),
{
    let t1 = flush_into(t, buf, span);
    let touched1 = flush_touched(touched, span);
    assert forall|i: int, j: int, k: int| in_grid(post.shape(), i, j, k) implies #[trigger] post.h_at(
        i,
        j,
        k,
    ) == (if touched1.contains(j) {
        h_value(t1(i, j), k, h_zero)
    } else {
        before.h_at(i, j, k)
    }) && post.p_at(i, j, k) == (if touched1.contains(j) {
        p_value(t1(i, j), k, p_zero)
    } else {
        before.p_at(i, j, k)
    }) by {
        assert(in_grid(pre.shape(), i, j, k));
        assert(pre.h_at(i, j, k) == (if touched.contains(j) {
            h_value(t(i, j), k, h_zero)
        } else {
            before.h_at(i, j, k)
        }));
        assert(pre.p_at(i, j, k) == (if touched.contains(j) {
            p_value(t(i, j), k, p_zero)
        } else {
            before.p_at(i, j, k)
        }));
        match span {
            Some(sp) => {
                if sp.r_offset <= j < sp.r_offset + sp.len {
                    assert(in_grid(hb.dims(), i, j - sp.r_offset, k));
                    assert(touched1.contains(j));
                    assert(t1(i, j) == buf(i, j - sp.r_offset));
                    assert(post.h_at(i, j, k) == hb.cell(i, j - sp.r_offset, k));
                    assert(post.p_at(i, j, k) == pb.cell(i, j - sp.r_offset, k));
                } else {
                    assert(touched1.contains(j) == touched.contains(j));
                    assert(t1(i, j) == t(i, j));
                    assert(post.h_at(i, j, k) == pre.h_at(i, j, k));
                }
            },
            None => {
                assert(t1 == t);
                assert(touched1 == touched);
            },
        }
    }
}

/// At the end of a run over receiver-major jobs, a sink in step with the
/// model holds the last job's rows at every receiver handed to it and its
/// earlier contents elsewhere; a sink that started all-zero holds the last
/// job's rows or zero everywhere.
proof fn lemma_final_cells<C, E>(
    m: Seq<(usize, usize, Option<([C; N_BANDS], [E; N_BANDS])>)>,
    cr: usize,
    after: InMemorySink<C, E>,
    before: InMemorySink<C, E>,
    h_zero: C,
    p_zero: E,
)
    requires
        cr > 0,
        receiver_major(m),
        after.shape() == before.shape(),
        sink_keeps(after, before, fill_result(m, cr, None), fill_touched(m, cr, None), h_zero, p_zero),
    ensures
        forall|s: int, r: int, k: int|
            in_grid(before.shape(), s, r, k) ==> #[trigger] after.h_at(s, r, k) == (if fill_touched(
                m,
                cr,
                None,
            ).contains(r) {
                h_value(last_result(m, s, r, None), k, h_zero)
            } else {
                before.h_at(s, r, k)
            }) && after.p_at(s, r, k) == (if fill_touched(m, cr, None).contains(r) {
                p_value(last_result(m, s, r, None), k, p_zero)
            } else {
                before.p_at(s, r, k)
            }),
        fresh_sink(before, h_zero, p_zero) ==> forall|s: int, r: int, k: int|
            in_grid(before.shape(), s, r, k) ==> #[trigger] after.h_at(s, r, k) == h_value(
                last_result(m, s, r, None),
                k,
                h_zero,
            ) && after.p_at(s, r, k) == p_value(last_result(m, s, r, None), k, p_zero),
{
    let st = fill_prefix(m, cr, None);
    let span = match st.open {
        Some(o) => Some(used_span(o)),
        None => None,
    };
    lemma_untouched_zero(m, cr, None);
    assert forall|s: int, r: int, k: int| in_grid(before.shape(), s, r, k) implies #[trigger] after.h_at(
        s,
        r,
        k,
    ) == (if fill_touched(m, cr, None).contains(r) {
        h_value(last_result(m, s, r, None), k, h_zero)
    } else {
        before.h_at(s, r, k)
    }) && after.p_at(s, r, k) == (if fill_touched(m, cr, None).contains(r) {
        p_value(last_result(m, s, r, None), k, p_zero)
    } else {
        before.p_at(s, r, k)
    }) by {
        lemma_chunked_fill_is_index_for_index(m, cr, None, s, r);
        assert(in_grid(after.shape(), s, r, k));
        let fr = (fill_result(m, cr, None))(s, r);
        assert(fr == last_result(m, s, r, None));
        assert(after.h_at(s, r, k) == (if fill_touched(m, cr, None).contains(r) {
            h_value(fr, k, h_zero)
        } else {
            before.h_at(s, r, k)
        }));
        assert(after.p_at(s, r, k) == (if fill_touched(m, cr, None).contains(r) {
            p_value(fr, k, p_zero)
        } else {
            before.p_at(s, r, k)
        }));
    }
    if fresh_sink(before, h_zero, p_zero) {
        assert forall|s: int, r: int, k: int| in_grid(before.shape(), s, r, k) implies #[trigger] after.h_at(
            s,
            r,
            k,
        ) == h_value(last_result(m, s, r, None), k, h_zero) && after.p_at(s, r, k) == p_value(
            last_result(m, s, r, None),
            k,
            p_zero,
        ) by {
            lemma_chunked_fill_is_index_for_index(m, cr, None, s, r);
            assert(in_grid(after.shape(), s, r, k));
            if !fill_touched(m, cr, None).contains(r) {
                assert(!touched_prefix(m, cr, None).contains(r));
                assert((fill_result(m, cr, None))(s, r) == (st.tensor)(s, r));
                assert((st.tensor)(s, r) == None::<([C; N_BANDS], [E; N_BANDS])>);
            }
        }
    }
}

/// Whether every flag of the first `len` rows is set.
fn rows_all_set(flags: &Grid3<bool>, len: usize) -> (b: bool)
    requires
        flags.wf(),
        len <= flags.dims().1,
        flags.dims().2 == 1,
    ensures
        !b ==> !flags_set(*flags),
        b ==> forall|i: int, j: int|
            0 <= i < flags.dims().0 && 0 <= j < len ==> #[trigger] flags.cell(i, j, 0),
{
    let (n0, _, _) = flags.dim();
    let mut s: usize = 0;
    while s < n0
        invariant
            flags.wf(),
            len <= flags.dims().1,
            flags.dims().2 == 1,
            n0 == flags.dims().0,
            s <= n0,
            forall|i: int, j: int| 0 <= i < s && 0 <= j < len ==> #[trigger] flags.cell(i, j, 0),
        decreases n0 - s,
    {
        let mut r: usize = 0;
        while r < len
            invariant
                flags.wf(),
                len <= flags.dims().1,
                flags.dims().2 == 1,
                n0 == flags.dims().0,
                s < n0,
                r <= len,
                forall|i: int, j: int|
                    (0 <= i < s && 0 <= j < len) || (i == s && 0 <= j < r) ==> #[trigger] flags.cell(
                        i,
                        j,
                        0,
                    ),
            decreases len - r,
        {
            if !*flags.get(s, r, 0) {
                assert(in_grid(flags.dims(), s as int, r as int, 0));
                return false;
            }
            r = r + 1;
        }
        s = s + 1;
    }
    true
}

/// Hand the used rows `span.len` of the working buffers to the sink at
/// `span.r_offset`.
fn flush_span<C: Copy, E: Copy>(
    sink: &mut InMemorySink<C, E>,
    hb: &Grid3<C>,
    pb: &Grid3<E>,
    hf: &Grid3<bool>,
    pf: &Grid3<bool>,
    span: ChunkSpan,
) -> (r: Result<(), SinkError>)
    requires
        old(sink).wf(),
        hb.wf(),
        pb.wf(),
        hf.wf(),
        pf.wf(),
        pb.dims() == hb.dims(),
        hf.dims() == (hb.dims().0, hb.dims().1, 1usize),
        pf.dims() == hf.dims(),
        hb.dims().2 == N_BANDS,
        hb.dims().0 == old(sink).shape().0,
        old(sink).shape().2 == N_BANDS,
        span.len <= hb.dims().1,
    ensures
        final(sink).wf(),
        final(sink).shape() == old(sink).shape(),
        r matches Err(e) ==> e is NonFinite || span.r_offset + span.len > old(sink).shape().1,
        r matches Err(SinkError::NonFinite { .. }) ==> !(flags_set(*hf) && flags_set(*pf)),
        final(sink).high_water() == old(sink).high_water() || final(sink).high_water() <= chunk_bytes(
            hb.dims(),
        ),
        r is Ok ==> span.r_offset + span.len <= old(sink).shape().1,
        r is Ok ==> forall|a: int, b: int|
            0 <= a < hf.dims().0 && 0 <= b < span.len ==> #[trigger] hf.cell(a, b, 0) && pf.cell(a, b, 0),
        r is Ok ==> final(sink).high_water() == max_int(
            old(sink).high_water() as int,
            chunk_bytes((hb.dims().0, span.len, N_BANDS)),
        ),
        r is Ok ==> forall|i: int, j: int, k: int|
            in_grid(old(sink).shape(), i, j, k) ==> if span.r_offset <= j < span.r_offset + span.len {
                #[trigger] final(sink).h_at(i, j, k) == hb.cell(i, j - span.r_offset, k)
                    && final(sink).p_at(i, j, k) == pb.cell(i, j - span.r_offset, k)
            } else {
                final(sink).h_at(i, j, k) == old(sink).h_at(i, j, k) && final(sink).p_at(i, j, k)
                    == old(sink).p_at(i, j, k)
            },
{
    let h = hb.prefix_rows(span.len);
    let p = pb.prefix_rows(span.len);
    let h_finite = rows_all_set(hf, span.len);
    let p_finite = rows_all_set(pf, span.len);
    let r = sink.put_chunk(span.r_offset, &h, &p, h_finite, p_finite);
    proof {
        if r matches Err(SinkError::NonFinite { .. }) {
            assert(!h_finite || !p_finite);
        }
        let d = hb.dims();
        assert(chunk_bytes(h.dims()) <= chunk_bytes(d)) by (nonlinear_arith)
            requires
                h.dims() == (d.0, span.len, d.2),
                span.len <= d.1,
        ;
        if r is Ok {
            assert forall|i: int, j: int, k: int|
                in_grid(old(sink).shape(), i, j, k) && span.r_offset <= j < span.r_offset
                    + span.len implies #[trigger] sink.h_at(i, j, k) == hb.cell(i, j - span.r_offset, k)
                && sink.p_at(i, j, k) == pb.cell(i, j - span.r_offset, k) by {
                assert(in_grid(h.dims(), i, j - span.r_offset, k));
            }
        }
    }
    r
}

/// What a successful fill run leaves, for the job results `rows` it was
/// handed: one result per job, each one the computation can return, finite
/// rows for every job that no later job overwrote, a high-water mark raised
/// to the bytes of the longest span handed to the sink, and, for
/// receiver-major jobs, every cell of a receiver handed to the sink holding
/// the rows of the last job for it (or zero where no job wrote) while every
/// other cell keeps its value; on a sink that started all-zero, every cell
/// holds the last job's rows or zero, whatever the chunk size.
pub open spec fn fill_outcome<C, E, X, F: Fn(usize) -> Result<JobRows<C, E>, X>>(
    f: F,
    jobs: Seq<(usize, usize)>,
    rows: Seq<JobRows<C, E>>,
    before: InMemorySink<C, E>,
    after: InMemorySink<C, E>,
    cr: usize,
    h_zero: C,
    p_zero: E,
) -> bool {
    &&& rows.len() == jobs.len()
    &&& all_returned(f, rows)
    &&& last_rows_finite(jobs, rows, jobs.len() as int)
    &&& after.high_water() == max_int(
        before.high_water() as int,
        chunk_bytes((before.shape().0, fill_max_span(job_model(jobs, rows), cr, None) as usize, N_BANDS)),
    )
    &&& receiver_major(job_model(jobs, rows)) ==> forall|s: int, r: int, k: int|
        in_grid(before.shape(), s, r, k) ==> #[trigger] after.h_at(s, r, k) == (if fill_touched(
            job_model(jobs, rows),
            cr,
            None,
        ).contains(r) {
            h_value(last_result(job_model(jobs, rows), s, r, None), k, h_zero)
        } else {
            before.h_at(s, r, k)
        }) && after.p_at(s, r, k) == (if fill_touched(job_model(jobs, rows), cr, None).contains(r) {
            p_value(last_result(job_model(jobs, rows), s, r, None), k, p_zero)
        } else {
            before.p_at(s, r, k)
        })
    &&& (fresh_sink(before, h_zero, p_zero) && receiver_major(job_model(jobs, rows))) ==> forall|
        s: int,
        r: int,
        k: int,
    |
        in_grid(before.shape(), s, r, k) ==> #[trigger] after.h_at(s, r, k) == h_value(
            last_result(job_model(jobs, rows), s, r, None),
            k,
            h_zero,
        ) && after.p_at(s, r, k) == p_value(last_result(job_model(jobs, rows), s, r, None), k, p_zero)
}

/// The chunked fill loop: run `jobs` (`(receiver, sub_source)` pairs, in
/// receiver-major order) through the sink `chunk_receivers` receivers at a
/// time, computing each job's rows with `job_rows(q)` after its sub-source
/// has been checked. Each chunk is filled in a zeroed working buffer of
/// `[n_sub, chunk_receivers, N_BANDS]` and its used span is flushed when the
/// chunk changes and at the end.
///
/// A run succeeds only if every job's sub-source and receiver fit the sink;
/// a sub-source out of range is [`ChunkError::SubSourceOutOfRange`], a
/// receiver out of range makes the sink refuse the chunk, and a chunk with a
/// row reported non-finite is refused with `NonFinite`, so no such row is
/// ever stored. On success the run's job results `rows` satisfy
/// [`fill_outcome`].
#[verifier::spinoff_prover]
#[verifier::rlimit(100)]
pub fn fill_chunked<C: Copy, E: Copy, X, F: Fn(usize) -> Result<JobRows<C, E>, X>>(
    sink: &mut InMemorySink<C, E>,
    jobs: &Vec<(usize, usize)>,
    chunk_receivers: usize,
    h_zero: C,
    p_zero: E,
    job_rows: F,
) -> (r: Result<(), FillError<X>>)
    requires
        old(sink).wf(),
        cell_count((old(sink).shape().0, chunk_receivers, N_BANDS)) <= usize::MAX,
        forall|q: usize| q < jobs@.len() ==> call_requires(job_rows, (q,)),
    ensures
        final(sink).wf(),
        final(sink).shape() == old(sink).shape(),
        final(sink).high_water() == old(sink).high_water() || final(sink).high_water() <= chunk_bytes(
            (old(sink).shape().0, chunk_receivers, N_BANDS),
        ),
        chunk_receivers == 0 ==> r == Err::<(), FillError<X>>(
            FillError::Chunk(ChunkError::DegenerateChunkSize),
        ) && *final(sink) == *old(sink),
        r matches Err(FillError::Chunk(ChunkError::SubSourceOutOfRange { sub_source, n_sub })) ==> {
            &&& n_sub == old(sink).shape().0
            &&& sub_source >= n_sub
            &&& exists|q: int| 0 <= q < jobs@.len() && #[trigger] jobs@[q] == (jobs@[q].0, sub_source)
        },
        chunk_receivers > 0 ==> !(r matches Err(FillError::Chunk(ChunkError::DegenerateChunkSize))),
        r is Ok ==> jobs_in_range(jobs@, old(sink).shape()),
        r matches Err(FillError::Job(e)) ==> job_can_fail(job_rows, jobs@.len(), e),
        r matches Err(FillError::Sink(SinkError::NonFinite { .. })) ==> exists|rows: Seq<
            JobRows<C, E>,
        >|
            #![trigger all_returned(job_rows, rows)]
            rows.len() <= jobs@.len() && all_returned(job_rows, rows) && some_non_finite(rows),
        (chunk_receivers > 0 && jobs_in_range(jobs@, old(sink).shape())) ==> (r is Ok || r matches Err(FillError::Job(_))
            || r matches Err(FillError::Sink(SinkError::NonFinite { .. }))),
        r is Ok ==> exists|rows: Seq<JobRows<C, E>>|
            #[trigger] fill_outcome(
                job_rows,
                jobs@,
                rows,
                *old(sink),
                *final(sink),
                chunk_receivers,
                h_zero,
                p_zero,
            ),
{
    let ghost old_sink = *sink;
    let ghost all_in = jobs_in_range(jobs@, old_sink.shape());
    let d = sink.tensor().dim();
    let n_sub = d.0;
    let n_rcv = d.1;
    let mut cursor = match ChunkCursor::new(n_sub, chunk_receivers) {
        Ok(c) => c,
        Err(e) => {
            return Err(FillError::Chunk(e));
        },
    };
    let cr = chunk_receivers;
    proof {
        assert(cell_count((n_sub, cr, 1usize)) <= cell_count((n_sub, cr, N_BANDS))) by (nonlinear_arith)
            requires
                n_sub * cr >= 0,
        ;
    }
    let mut hb: Grid3<C> = Grid3::filled((n_sub, cr, N_BANDS), h_zero);
    let mut pb: Grid3<E> = Grid3::filled((n_sub, cr, N_BANDS), p_zero);
    let mut hf: Grid3<bool> = Grid3::filled((n_sub, cr, 1), true);
    let mut pf: Grid3<bool> = Grid3::filled((n_sub, cr, 1), true);
    let ghost mut rows: Seq<JobRows<C, E>> = Seq::empty();
    let ghost mut cs: int = 0;
    proof {
        assert(job_model(jobs@.take(0), rows) =~= Seq::empty());
        lemma_chunk_bytes_max(old_sink.high_water() as int, n_sub, 0, 0);
    }
    let mut i: usize = 0;
    while i < jobs.len()
        invariant
            i <= jobs@.len(),
            old_sink == *old(sink),
            old_sink.shape().2 == N_BANDS,
            cr == chunk_receivers,
            sink.high_water() == old_sink.high_water() || sink.high_water() <= chunk_bytes(
                (n_sub, cr, N_BANDS),
            ),
            sink.wf(),
            sink.shape() == old_sink.shape(),
            n_sub == old_sink.shape().0,
            n_rcv == old_sink.shape().1,
            cr > 0,
            cursor.wf(),
            cursor.n_sub() == n_sub,
            cursor.chunk_receivers() == cr,
            hb.wf(),
            pb.wf(),
            hf.wf(),
            pf.wf(),
            hb.dims() == (n_sub, cr, N_BANDS),
            pb.dims() == (n_sub, cr, N_BANDS),
            hf.dims() == (n_sub, cr, 1usize),
            pf.dims() == (n_sub, cr, 1usize),
            cell_count((n_sub, cr, N_BANDS)) <= usize::MAX,
            cell_count((n_sub, cr, 1usize)) <= usize::MAX,
            forall|q: usize| q < jobs@.len() ==> call_requires(job_rows, (q,)),
            rows.len() == i,
            all_returned(job_rows, rows),
            cursor.open_chunk() == fill_prefix(job_model(jobs@.take(i as int), rows), cr, None).open,
            buffer_holds(
                hb,
                pb,
                fill_prefix(job_model(jobs@.take(i as int), rows), cr, None).buffer,
                h_zero,
                p_zero,
            ),
            sink_keeps(
                *sink,
                old_sink,
                fill_prefix(job_model(jobs@.take(i as int), rows), cr, None).tensor,
                touched_prefix(job_model(jobs@.take(i as int), rows), cr, None),
                h_zero,
                p_zero,
            ),
            all_in == jobs_in_range(jobs@, old_sink.shape()),
            !(flags_set(hf) && flags_set(pf)) ==> some_non_finite(rows),
            all_in ==> (cursor.open_chunk() matches Some(o) ==> o.r_offset + o.used_len <= n_rcv),
            0 <= cs <= i,
            settled_in_range(jobs@, cs, n_sub, n_rcv),
            last_rows_finite(jobs@, rows, cs),
            cursor.open_chunk() is None ==> cs == i,
            cursor.open_chunk() matches Some(o) ==> {
                &&& open_span(jobs@, cs, i as int, o, n_sub)
                &&& open_rows_fit(jobs@, cs, i as int, o, cr)
                &&& open_flags(jobs@, rows, cs, i as int, o.r_offset as int, hf, pf)
            },
            flushed_max(job_model(jobs@.take(i as int), rows), cr, None) <= cr,
            sink.high_water() == max_int(
                old_sink.high_water() as int,
                chunk_bytes(
                    (
                        n_sub,
                        flushed_max(job_model(jobs@.take(i as int), rows), cr, None) as usize,
                        N_BANDS,
                    ),
                ),
            ),
        decreases jobs@.len() - i,
    {
        let job = jobs[i];
        let recv = job.0;
        let sub = job.1;
        let ghost st = fill_prefix(job_model(jobs@.take(i as int), rows), cr, None);
        let ghost pre_sink = *sink;
        let ghost o_old = cursor.open_chunk();
        let step = cursor.advance(recv);
        match step.flush {
            Some(span) => {
                match flush_span(sink, &hb, &pb, &hf, &pf, span) {
                    Ok(()) => {},
                    Err(e) => {
                        proof {
                            if all_in {
                                assert(jobs@[i as int].1 < n_sub);
                            }
                            assert(all_returned(job_rows, rows));
                        }
                        return Err(FillError::Sink(e));
                    },
                }
            },
            None => {},
        }
        let ghost tensor1 = flush_into(st.tensor, st.buffer, step.flush);
        let ghost hw1 = sink.high_water();
        proof {
            match step.flush {
                Some(span) => {
                    lemma_settle_chunk(jobs@, rows, cs, i as int, o_old->Some_0, hf, pf, n_sub, n_rcv);
                    cs = i as int;
                },
                None => {},
            }
            if step.opened is Some {
                cs = i as int;
            }
        }
        proof {
            lemma_flush_keeps(
                pre_sink,
                *sink,
                old_sink,
                st.tensor,
                st.buffer,
                touched_prefix(job_model(jobs@.take(i as int), rows), cr, None),
                step.flush,
                hb,
                pb,
                h_zero,
                p_zero,
            );
        }
        let ghost hb0 = hb;
        if step.opened.is_some() {
            hb = Grid3::filled((n_sub, cr, N_BANDS), h_zero);
            pb = Grid3::filled((n_sub, cr, N_BANDS), p_zero);
            hf = Grid3::filled((n_sub, cr, 1), true);
            pf = Grid3::filled((n_sub, cr, 1), true);
        }
        let ghost buffer1: spec_fn(int, int) -> Option<([C; N_BANDS], [E; N_BANDS])> = if step.opened is Some {
            |s: int, row: int| None
        } else {
            st.buffer
        };
        assert(buffer_holds(hb, pb, buffer1, h_zero, p_zero));
        proof {
            if step.opened is Some {
                assert(flags_set(hf));
                assert(flags_set(pf));
            }
            assert(!(flags_set(hf) && flags_set(pf)) ==> some_non_finite(rows));
        }
        let ghost open1 = cursor.open_chunk();
        let r_local = match cursor.place(recv, sub) {
            Ok(x) => x,
            Err(e) => {
                proof {
                    assert(jobs@[i as int] == (jobs@[i as int].0, sub));
                }
                return Err(FillError::Chunk(e));
            },
        };
        let jr = match job_rows(i) {
            Ok(x) => x,
            Err(e) => {
                proof {
                    assert(call_ensures(job_rows, (i,), Err::<JobRows<C, E>, X>(e)));
                    assert(job_can_fail(job_rows, jobs@.len(), e));
                }
                return Err(FillError::Job(e));
            },
        };
        let ghost hb1 = hb;
        let ghost pb1 = pb;
        let mut k: usize = 0;
        while k < N_BANDS
            invariant
                k <= N_BANDS,
                hb.wf(),
                pb.wf(),
                hb.dims() == (n_sub, cr, N_BANDS),
                pb.dims() == (n_sub, cr, N_BANDS),
                hb1.dims() == (n_sub, cr, N_BANDS),
                pb1.dims() == (n_sub, cr, N_BANDS),
                sub < n_sub,
                r_local < cr,
                forall|a: int, b: int, c: int|
                    in_grid(hb1.dims(), a, b, c) ==> #[trigger] hb.cell(a, b, c) == if a == sub && b
                        == r_local && c < k {
                        jr.h@[c]
                    } else {
                        hb1.cell(a, b, c)
                    } && pb.cell(a, b, c) == if a == sub && b == r_local && c < k {
                        jr.p@[c]
                    } else {
                        pb1.cell(a, b, c)
                    },
            decreases N_BANDS - k,
        {
            hb.set(sub, r_local, k, jr.h[k]);
            pb.set(sub, r_local, k, jr.p[k]);
            k = k + 1;
        }
        let ghost hf1 = hf;
        let ghost pf1 = pf;
        hf.set(sub, r_local, 0, jr.h_finite);
        pf.set(sub, r_local, 0, jr.p_finite);
        proof {
            let ghost rows2 = rows.push(jr);
            lemma_flags_step(hf1, pf1, hf, pf, rows, jr, sub as int, r_local as int);
            assert(jobs@[i as int] == (recv, sub));
            lemma_place_job(
                jobs@,
                rows,
                jr,
                cs,
                i as int,
                open1->Some_0,
                r_local as int,
                hf1,
                pf1,
                hf,
                pf,
                n_sub,
                n_rcv,
            );
            let m1 = job_model(jobs@.take(i as int + 1), rows2);
            assert(m1.drop_last() =~= job_model(jobs@.take(i as int), rows));
            assert(m1.last() == (recv, sub, Some((jr.h, jr.p))));
            let st1 = fill_prefix(m1, cr, None);
            assert(st1 == fill_step(st, cr, (recv, sub, Some((jr.h, jr.p))), None));
            assert(st1.tensor == tensor1);
            let fm0 = flushed_max(job_model(jobs@.take(i as int), rows), cr, None);
            match step.flush {
                Some(span) => {
                    lemma_chunk_bytes_max(old_sink.high_water() as int, n_sub, fm0, span.len as nat);
                },
                None => {},
            }
            assert(sink.high_water() == hw1);
            assert(touched_prefix(m1, cr, None) == flush_touched(
                touched_prefix(job_model(jobs@.take(i as int), rows), cr, None),
                step.flush,
            ));
            assert(sink_keeps(*sink, old_sink, st1.tensor, touched_prefix(m1, cr, None), h_zero, p_zero));
            assert(buffer_holds(hb, pb, st1.buffer, h_zero, p_zero));
            assert forall|q: int| 0 <= q < rows2.len() implies call_ensures(
                job_rows,
                (q as usize,),
                Ok::<JobRows<C, E>, X>(#[trigger] rows2[q]),
            ) by {
                if q < i {
                    assert(rows2[q] == rows[q]);
                }
            }
            rows = rows2;
        }
        i = i + 1;
    }
    let ghost st = fill_prefix(job_model(jobs@.take(i as int), rows), cr, None);
    let ghost pre_sink = *sink;
    let ghost o_fin = cursor.open_chunk();
    let last = cursor.finish();
    match last {
        Some(span) => {
            match flush_span(sink, &hb, &pb, &hf, &pf, span) {
                Ok(()) => {},
                Err(e) => {
                    proof {
                        assert(all_returned(job_rows, rows));
                    }
                    return Err(FillError::Sink(e));
                },
            }
        },
        None => {},
    }
    proof {
        match last {
            Some(span) => {
                lemma_settle_chunk(jobs@, rows, cs, i as int, o_fin->Some_0, hf, pf, n_sub, n_rcv);
            },
            None => {},
        }
        assert(jobs@.take(i as int) =~= jobs@);
        let m = job_model(jobs@, rows);
        let fm = flushed_max(job_model(jobs@.take(i as int), rows), cr, None);
        match last {
            Some(span) => {
                lemma_chunk_bytes_max(old_sink.high_water() as int, n_sub, fm, span.len as nat);
            },
            None => {},
        }
        assert(job_model(jobs@.take(i as int), rows) == m);
        assert(st == fill_prefix(m, cr, None));
        let fin = fill_result(m, cr, None);
        assert(last == match st.open {
            Some(o) => Some(used_span(o)),
            None => None,
        });
        lemma_flush_keeps(
            pre_sink,
            *sink,
            old_sink,
            st.tensor,
            st.buffer,
            touched_prefix(m, cr, None),
            last,
            hb,
            pb,
            h_zero,
            p_zero,
        );
        assert(fin == flush_into(st.tensor, st.buffer, last));
        assert(fill_touched(m, cr, None) == flush_touched(touched_prefix(m, cr, None), last));
        if receiver_major(m) {
            lemma_final_cells(m, cr, *sink, old_sink, h_zero, p_zero);
        }
        assert(all_returned(job_rows, rows));
        assert(settled_in_range(jobs@, i as int, n_sub, n_rcv));
        assert forall|q: int| 0 <= q < jobs@.len() implies #[trigger] jobs@[q].1 < old_sink.shape().0
            && jobs@[q].0 < old_sink.shape().1 by {
            assert(jobs@[q].0 < n_rcv && jobs@[q].1 < n_sub);
        }
        assert(jobs_in_range(jobs@, old_sink.shape()));
        assert(last_rows_finite(jobs@, rows, jobs@.len() as int));
        assert(flushed_max(m, cr, None) == fm);
        assert(fill_prefix(m, cr, None).open == o_fin);
        assert(sink.high_water() == max_int(
            old_sink.high_water() as int,
            chunk_bytes((n_sub, fill_max_span(m, cr, None) as usize, N_BANDS)),
        ));
        assert(fill_outcome(job_rows, jobs@, rows, old_sink, *sink, cr, h_zero, p_zero));
    }
    Ok(())
}

} // verus!
