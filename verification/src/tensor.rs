//! The dense transfer-tensor store, its streaming seam and the shape checks
//! of the two readouts.
//!
//! A transfer tensor is indexed `[sub_source, receiver, band]` and stored
//! row-major, so the band axis is contiguous. It is a *pair*: the coherent
//! transfer `H_coh` and the absolute incoherent energy `P_incoh_abs`, both of
//! the same shape. The solver hands the sink one receiver-axis chunk at a
//! time (`[n_sub, chunk_len, N_BANDS]` at receiver offset `r_offset`), so the
//! whole tensor never has to be resident; [`InMemorySink`] materializes the
//! full pair and tracks the largest single chunk it was handed (the
//! high-water-mark byte counter).
//!
//! The store is generic in its cell types: the engine instantiates it with a
//! complex number for `H_coh` and a real for `P_incoh_abs`. Whether a chunk
//! holds only finite values is decided by the caller, who knows the cell type,
//! and handed in as a flag; every other check is made here.

use crate::freq::N_BANDS;
use vstd::prelude::*;

verus! {

/// Bytes held per `(sub_source, receiver, band)` cell across the pair:
/// 16 B for one complex `H_coh` value + 8 B for one real `P_incoh_abs` value.
pub const BYTES_PER_CELL_PAIR: usize = 16 + 8;

/// Errors from the tensor sink and readout trust boundaries.
///
/// Chunk dimensions, gain-vector lengths and receiver offsets are all
/// caller-controlled; every mismatch or non-finite value yields one of these.
#[derive(Debug, PartialEq, Eq)]
pub enum SinkError {
    /// The two channels of a chunk disagree in shape.
    ChannelShapeMismatch {
        /// `H_coh` chunk dims.
        h_coh: (usize, usize, usize),
        /// `P_incoh_abs` chunk dims.
        p_incoh: (usize, usize, usize),
    },
    /// A chunk's sub-source count does not match the sink's backing store.
    SubCountMismatch {
        /// Sink sub-source count.
        expected: usize,
        /// Chunk sub-source count.
        got: usize,
    },
    /// A chunk's band count is not [`N_BANDS`].
    BandCountMismatch {
        /// Expected band count ([`N_BANDS`]).
        expected: usize,
        /// Chunk band count.
        got: usize,
    },
    /// The chunk's receiver span `[r_offset, r_offset+chunk_len)` runs past the
    /// receiver axis of the backing store.
    ChunkOutOfBounds {
        /// Chunk receiver offset.
        r_offset: usize,
        /// Chunk receiver length.
        chunk_len: usize,
        /// Backing-store receiver count.
        n_receivers: usize,
    },
    /// A readout gain vector has the wrong sub-source count.
    GainSubCountMismatch {
        /// Tensor sub-source count.
        expected: usize,
        /// Gain sub-source count.
        got: usize,
    },
    /// A per-sub-source readout gain vector has the wrong band count.
    GainBandCountMismatch {
        /// Offending sub-source index.
        sub: usize,
        /// Expected band count.
        expected: usize,
        /// Actual band count.
        got: usize,
    },
    /// A caller-supplied value (chunk cell or gain) was NaN or infinite.
    NonFinite {
        /// Which input carried the non-finite value.
        what: &'static str,
    },
}

/// Row-major flat position of cell `(i, j, k)` in a grid with axis lengths
/// `(_, n1, n2)`.
pub open spec fn flat_index(n1: int, n2: int, i: int, j: int, k: int) -> int {
    (i * n1 + j) * n2 + k
}

/// `(i, j, k)` lies inside a grid of dims `d`.
pub open spec fn in_grid(d: (usize, usize, usize), i: int, j: int, k: int) -> bool {
    0 <= i < d.0 && 0 <= j < d.1 && 0 <= k < d.2
}

/// Number of cells of a grid of dims `d`.
pub open spec fn cell_count(d: (usize, usize, usize)) -> int {
    d.0 * d.1 * d.2
}

proof fn lemma_mul_add_unique(a: int, b: int, a2: int, b2: int, n: int)
    requires
        0 <= b < n,
        0 <= b2 < n,
        a * n + b == a2 * n + b2,
    ensures
        a == a2,
        b == b2,
{
    if a < a2 {
        assert(a * n + b < a2 * n) by (nonlinear_arith)
            requires
                a < a2,
                0 <= b < n,
        ;
    } else if a2 < a {
        assert(a2 * n + b2 < a * n) by (nonlinear_arith)
            requires
                a2 < a,
                0 <= b2 < n,
        ;
    }
}

proof fn lemma_flat_index(n0: int, n1: int, n2: int, i: int, j: int, k: int)
    requires
        0 <= i < n0,
        0 <= j < n1,
        0 <= k < n2,
    ensures
        0 <= i * n1 <= i * n1 + j < n0 * n1,
        n0 * n1 <= n0 * n1 * n2,
        0 <= flat_index(n1, n2, i, j, k) < n0 * n1 * n2,
{
    assert(0 <= i * n1 <= i * n1 + j < n0 * n1) by (nonlinear_arith)
        requires
            0 <= i < n0,
            0 <= j < n1,
    ;
    assert(n0 * n1 <= n0 * n1 * n2) by (nonlinear_arith)
        requires
            0 <= n0 * n1,
            1 <= n2,
    ;
    assert(0 <= (i * n1 + j) * n2 + k < (n0 * n1) * n2) by (nonlinear_arith)
        requires
            0 <= i * n1 + j < n0 * n1,
            0 <= k < n2,
    ;
}

proof fn lemma_flat_index_injective(
    n1: int,
    n2: int,
    i: int,
    j: int,
    k: int,
    i2: int,
    j2: int,
    k2: int,
)
    requires
        0 <= j < n1,
        0 <= j2 < n1,
        0 <= k < n2,
        0 <= k2 < n2,
        flat_index(n1, n2, i, j, k) == flat_index(n1, n2, i2, j2, k2),
    ensures
        i == i2,
        j == j2,
        k == k2,
{
    lemma_mul_add_unique(i * n1 + j, k, i2 * n1 + j2, k2, n2);
    lemma_mul_add_unique(i, j, i2, j2, n1);
}

/// The flat position of `(i, j, k)`, computed without overflow.
fn index_of(n0: usize, n1: usize, n2: usize, i: usize, j: usize, k: usize) -> (q: usize)
    requires
        i < n0,
        j < n1,
        k < n2,
        n0 * n1 * n2 <= usize::MAX,
    ensures
        q == flat_index(n1 as int, n2 as int, i as int, j as int, k as int),
        q < n0 * n1 * n2,
{
    proof {
        lemma_flat_index(n0 as int, n1 as int, n2 as int, i as int, j as int, k as int);
    }
    (i * n1 + j) * n2 + k
}

/// The number of cells of a grid of dims `d`, computed without overflow.
fn checked_cell_count(d: (usize, usize, usize)) -> (n: Option<usize>)
    ensures
        n is Some <==> cell_count(d) <= usize::MAX,
        n matches Some(n) ==> n == cell_count(d),
{
    if d.0 == 0 || d.1 == 0 || d.2 == 0 {
        proof {
            assert(cell_count(d) == 0) by (nonlinear_arith)
                requires
                    d.0 == 0 || d.1 == 0 || d.2 == 0,
            ;
        }
        return Some(0);
    }
    match d.0.checked_mul(d.1) {
        None => {
            proof {
                assert(d.0 * d.1 <= cell_count(d)) by (nonlinear_arith)
                    requires
                        d.2 >= 1,
                        d.0 * d.1 >= 0,
                ;
            }
            None
        },
        Some(a) => a.checked_mul(d.2),
    }
}

/// A dense three-axis grid stored row-major (last axis contiguous).
pub struct Grid3<T> {
    n0: usize,
    n1: usize,
    n2: usize,
    cells: Vec<T>,
}

impl<T> Grid3<T> {
    /// The grid holds exactly one cell per index triple.
    pub closed spec fn wf(&self) -> bool {
        self.cells.len() == self.n0 * self.n1 * self.n2
    }

    /// The grid's axis lengths.
    pub closed spec fn dims(&self) -> (usize, usize, usize) {
        (self.n0, self.n1, self.n2)
    }

    /// The value of cell `(i, j, k)`.
    pub closed spec fn cell(&self, i: int, j: int, k: int) -> T {
        self.cells@[flat_index(self.n1 as int, self.n2 as int, i, j, k)]
    }

    /// A grid of the given dims with every cell set to `value`.
    pub fn filled(dims: (usize, usize, usize), value: T) -> (g: Self) where T: Copy
        requires
            cell_count(dims) <= usize::MAX,
        ensures
            g.wf(),
            g.dims() == dims,
            forall|i: int, j: int, k: int| in_grid(dims, i, j, k) ==> #[trigger] g.cell(i, j, k) == value,
    {
        let n = match checked_cell_count(dims) {
            Some(n) => n,
            None => 0,
        };
        let mut cells: Vec<T> = Vec::new();
        let mut q: usize = 0;
        while q < n
            invariant
                q <= n,
                n == cell_count(dims),
                cells@.len() == q,
                forall|t: int| 0 <= t < q ==> #[trigger] cells@[t] == value,
            decreases n - q,
        {
            cells.push(value);
            q = q + 1;
        }
        let g = Grid3 { n0: dims.0, n1: dims.1, n2: dims.2, cells };
        assert forall|i: int, j: int, k: int| in_grid(dims, i, j, k) implies #[trigger] g.cell(i, j, k) == value by {
            lemma_flat_index(dims.0 as int, dims.1 as int, dims.2 as int, i, j, k);
        }
        g
    }

    /// A grid of the given dims over row-major `cells`; `None` when the
    /// number of cells does not match the dims.
    pub fn from_vec(dims: (usize, usize, usize), cells: Vec<T>) -> (g: Option<Self>)
        ensures
            g is Some <==> cells@.len() == cell_count(dims),
            g matches Some(g) ==> g.wf() && g.dims() == dims && forall|i: int, j: int, k: int|
                in_grid(dims, i, j, k) ==> #[trigger] g.cell(i, j, k) == cells@[flat_index(
                    dims.1 as int,
                    dims.2 as int,
                    i,
                    j,
                    k,
                )],
    {
        let len = cells.len();
        match checked_cell_count(dims) {
            Some(n) => {
                if len == n {
                    Some(Grid3 { n0: dims.0, n1: dims.1, n2: dims.2, cells })
                } else {
                    None
                }
            },
            None => None,
        }
    }

    /// The axis lengths `(n0, n1, n2)`.
    pub fn dim(&self) -> (d: (usize, usize, usize))
        ensures
            d == self.dims(),
    {
        (self.n0, self.n1, self.n2)
    }

    /// The value of cell `(i, j, k)`.
    pub fn get(&self, i: usize, j: usize, k: usize) -> (v: &T)
        requires
            self.wf(),
            in_grid(self.dims(), i as int, j as int, k as int),
        ensures
            *v == self.cell(i as int, j as int, k as int),
    {
        let q = index_of(self.n0, self.n1, self.n2, i, j, k);
        &self.cells[q]
    }

    /// The cells in row-major order.
    pub fn into_vec(self) -> (v: Vec<T>)
        requires
            self.wf(),
        ensures
            v@.len() == cell_count(self.dims()),
            forall|i: int, j: int, k: int|
                in_grid(self.dims(), i, j, k) ==> #[trigger] self.cell(i, j, k) == v@[flat_index(
                    self.dims().1 as int,
                    self.dims().2 as int,
                    i,
                    j,
                    k,
                )],
    {
        self.cells
    }
}

/// Cell `(i, j, k)` has been copied by the span copy once it has passed
/// position `(s, r, f)` in row-major order over the chunk (chunk receiver
/// `j - r_offset`).
spec fn span_written(i: int, j: int, k: int, r_offset: int, s: int, r: int, f: int) -> bool {
    ||| i < s
    ||| i == s && j - r_offset < r
    ||| i == s && j - r_offset == r && k < f
}

impl<T: Copy> Grid3<T> {
    /// Set cell `(i, j, k)` to `v`, leaving every other cell.
    pub fn set(&mut self, i: usize, j: usize, k: usize, v: T)
        requires
            old(self).wf(),
            in_grid(old(self).dims(), i as int, j as int, k as int),
        ensures
            final(self).wf(),
            final(self).dims() == old(self).dims(),
            forall|a: int, b: int, c: int|
                in_grid(old(self).dims(), a, b, c) ==> #[trigger] final(self).cell(a, b, c) == if a
                    == i && b == j && c == k {
                    v
                } else {
                    old(self).cell(a, b, c)
                },
    {
        let ghost before = *self;
        let q = index_of(self.n0, self.n1, self.n2, i, j, k);
        self.cells.set(q, v);
        assert forall|a: int, b: int, c: int| in_grid(before.dims(), a, b, c) implies #[trigger] self.cell(
            a,
            b,
            c,
        ) == if a == i && b == j && c == k {
            v
        } else {
            before.cell(a, b, c)
        } by {
            lemma_flat_index(before.n0 as int, before.n1 as int, before.n2 as int, a, b, c);
            let qa = flat_index(before.n1 as int, before.n2 as int, a, b, c);
            if qa == q as int {
                lemma_flat_index_injective(
                    before.n1 as int,
                    before.n2 as int,
                    a,
                    b,
                    c,
                    i as int,
                    j as int,
                    k as int,
                );
            } else {
                if a == i && b == j && c == k {
                    assert(false);
                }
            }
        }
    }

    /// The first `len` rows of the middle axis, as a grid of dims
    /// `(n0, len, n2)`.
    pub fn prefix_rows(&self, len: usize) -> (g: Grid3<T>)
        requires
            self.wf(),
            len <= self.dims().1,
        ensures
            g.wf(),
            g.dims() == (self.dims().0, len, self.dims().2),
            forall|i: int, j: int, k: int|
                in_grid(g.dims(), i, j, k) ==> #[trigger] g.cell(i, j, k) == self.cell(i, j, k),
    {
        let n0 = self.n0;
        let n1 = self.n1;
        let n2 = self.n2;
        proof {
            assert(n0 * len * n2 <= n0 * n1 * n2) by (nonlinear_arith)
                requires
                    len <= n1,
            ;
        }
        let mut cells: Vec<T> = Vec::new();
        let mut i: usize = 0;
        assert(0 * len * n2 == 0) by (nonlinear_arith);
        while i < n0
            invariant
                self.wf(),
                n0 == self.n0,
                n1 == self.n1,
                n2 == self.n2,
                len <= n1,
                n0 * n1 * n2 <= usize::MAX,
                n0 * len * n2 <= n0 * n1 * n2,
                i <= n0,
                cells@.len() == i * len * n2,
                forall|a: int, b: int, c: int|
                    0 <= a < i && 0 <= b < len && 0 <= c < n2 ==> #[trigger] cells@[flat_index(
                        len as int,
                        n2 as int,
                        a,
                        b,
                        c,
                    )] == self.cell(a, b, c),
            decreases n0 - i,
        {
            let mut j: usize = 0;
            while j < len
                invariant
                    self.wf(),
                    n0 == self.n0,
                    n1 == self.n1,
                    n2 == self.n2,
                    len <= n1,
                    n0 * n1 * n2 <= usize::MAX,
                    n0 * len * n2 <= n0 * n1 * n2,
                    i < n0,
                    j <= len,
                    cells@.len() == (i * len + j) * n2,
                    forall|a: int, b: int, c: int|
                        0 <= a <= i && 0 <= b < len && 0 <= c < n2 && (a < i || b < j)
                            ==> #[trigger] cells@[flat_index(len as int, n2 as int, a, b, c)]
                            == self.cell(a, b, c),
                decreases len - j,
            {
                let mut k: usize = 0;
                while k < n2
                    invariant
                        self.wf(),
                        n0 == self.n0,
                        n1 == self.n1,
                        n2 == self.n2,
                        len <= n1,
                        n0 * n1 * n2 <= usize::MAX,
                        n0 * len * n2 <= n0 * n1 * n2,
                        i < n0,
                        j < len,
                        k <= n2,
                        cells@.len() == (i * len + j) * n2 + k,
                        forall|a: int, b: int, c: int|
                            0 <= a <= i && 0 <= b < len && 0 <= c < n2 && (a < i || b < j || (b
                                == j && c < k)) ==> #[trigger] cells@[flat_index(
                                len as int,
                                n2 as int,
                                a,
                                b,
                                c,
                            )] == self.cell(a, b, c),
                    decreases n2 - k,
                {
                    let v = *self.get(i, j, k);
                    let ghost old_cells = cells@;
                    proof {
                        assert((i * len + j) * n2 + k < n0 * len * n2) by (nonlinear_arith)
                            requires
                                i < n0,
                                j < len,
                                k < n2,
                        ;
                    }
                    cells.push(v);
                    assert forall|a: int, b: int, c: int|
                        0 <= a <= i && 0 <= b < len && 0 <= c < n2 && (a < i || b < j || (b == j
                            && c < k + 1)) implies #[trigger] cells@[flat_index(
                        len as int,
                        n2 as int,
                        a,
                        b,
                        c,
                    )] == self.cell(a, b, c) by {
                        let q = flat_index(len as int, n2 as int, a, b, c);
                        if a == i && b == j && c == k {
                        } else {
                            assert(q < (i * len + j) * n2 + k) by (nonlinear_arith)
                                requires
                                    q == (a * len + b) * n2 + c,
                                    0 <= a <= i,
                                    0 <= b < len,
                                    0 <= c < n2,
                                    a < i || b < j || (b == j && c < k),
                            ;
                            assert(cells@[q] == old_cells[q]);
                        }
                    }
                    k = k + 1;
                }
                proof {
                    assert((i * len + j) * n2 + n2 == (i * len + (j + 1)) * n2) by (nonlinear_arith);
                }
                j = j + 1;
            }
            proof {
                assert((i * len + len) * n2 == (i + 1) * len * n2) by (nonlinear_arith);
            }
            i = i + 1;
        }
        proof {
            assert(n0 * len * n2 == cell_count((n0, len, n2))) by (nonlinear_arith);
        }
        let g = Grid3 { n0, n1: len, n2, cells };
        g
    }

    /// Overwrite the receiver span `[r_offset, r_offset + src.n1)` of every
    /// row with `src` (same first and last axis), leaving all other cells.
    fn write_span(&mut self, src: &Grid3<T>, r_offset: usize)
        requires
            old(self).wf(),
            src.wf(),
            src.dims().0 == old(self).dims().0,
            src.dims().2 == old(self).dims().2,
            r_offset + src.dims().1 <= old(self).dims().1,
            cell_count(old(self).dims()) <= usize::MAX,
        ensures
            final(self).wf(),
            final(self).dims() == old(self).dims(),
            forall|i: int, j: int, k: int|
                in_grid(old(self).dims(), i, j, k) ==> #[trigger] final(self).cell(i, j, k) == if r_offset
                    <= j < r_offset + src.dims().1 {
                    src.cell(i, j - r_offset, k)
                } else {
                    old(self).cell(i, j, k)
                },
    {
        let ghost orig = *self;
        let n0 = self.n0;
        let n1 = self.n1;
        let n2 = self.n2;
        let hr = src.n1;
        proof {
            assert(cell_count(src.dims()) <= cell_count(orig.dims())) by (nonlinear_arith)
                requires
                    src.n0 == orig.n0,
                    src.n2 == orig.n2,
                    src.n1 <= orig.n1,
            ;
        }
        let mut s: usize = 0;
        while s < n0
            invariant
                s <= n0,
                self.wf(),
                self.dims() == orig.dims(),
                orig.wf(),
                src.wf(),
                n0 == orig.n0,
                n1 == orig.n1,
                n2 == orig.n2,
                hr == src.n1,
                src.n0 == n0,
                src.n2 == n2,
                r_offset + hr <= n1,
                n0 * n1 * n2 <= usize::MAX,
                cell_count(src.dims()) <= usize::MAX,
                forall|i: int, j: int, k: int|
                    in_grid(orig.dims(), i, j, k) ==> #[trigger] self.cell(i, j, k) == if r_offset <= j
                        < r_offset + hr && span_written(i, j, k, r_offset as int, s as int, 0, 0) {
                        src.cell(i, j - r_offset, k)
                    } else {
                        orig.cell(i, j, k)
                    },
            decreases n0 - s,
        {
            let mut r: usize = 0;
            while r < hr
                invariant
                    s < n0,
                    r <= hr,
                    self.wf(),
                    self.dims() == orig.dims(),
                    orig.wf(),
                    src.wf(),
                    n0 == orig.n0,
                    n1 == orig.n1,
                    n2 == orig.n2,
                    hr == src.n1,
                    src.n0 == n0,
                    src.n2 == n2,
                    r_offset + hr <= n1,
                    n0 * n1 * n2 <= usize::MAX,
                    cell_count(src.dims()) <= usize::MAX,
                    forall|i: int, j: int, k: int|
                        in_grid(orig.dims(), i, j, k) ==> #[trigger] self.cell(i, j, k) == if r_offset
                            <= j < r_offset + hr && span_written(
                            i,
                            j,
                            k,
                            r_offset as int,
                            s as int,
                            r as int,
                            0,
                        ) {
                            src.cell(i, j - r_offset, k)
                        } else {
                            orig.cell(i, j, k)
                        },
                decreases hr - r,
            {
                let mut f: usize = 0;
                while f < n2
                    invariant
                        s < n0,
                        r < hr,
                        f <= n2,
                        self.wf(),
                        self.dims() == orig.dims(),
                        orig.wf(),
                        src.wf(),
                        n0 == orig.n0,
                        n1 == orig.n1,
                        n2 == orig.n2,
                        hr == src.n1,
                        src.n0 == n0,
                        src.n2 == n2,
                        r_offset + hr <= n1,
                        n0 * n1 * n2 <= usize::MAX,
                        cell_count(src.dims()) <= usize::MAX,
                        forall|i: int, j: int, k: int|
                            in_grid(orig.dims(), i, j, k) ==> #[trigger] self.cell(i, j, k) == if r_offset
                                <= j < r_offset + hr && span_written(
                                i,
                                j,
                                k,
                                r_offset as int,
                                s as int,
                                r as int,
                                f as int,
                            ) {
                                src.cell(i, j - r_offset, k)
                            } else {
                                orig.cell(i, j, k)
                            },
                    decreases n2 - f,
                {
                    let qs = index_of(n0, hr, n2, s, r, f);
                    let qd = index_of(n0, n1, n2, s, r_offset + r, f);
                    let v = src.cells[qs];
                    let ghost before = *self;
                    self.cells.set(qd, v);
                    assert forall|i: int, j: int, k: int|
                        in_grid(orig.dims(), i, j, k) implies #[trigger] self.cell(i, j, k) == if r_offset
                            <= j < r_offset + hr && span_written(
                            i,
                            j,
                            k,
                            r_offset as int,
                            s as int,
                            r as int,
                            f + 1,
                        ) {
                            src.cell(i, j - r_offset, k)
                        } else {
                            orig.cell(i, j, k)
                        } by {
                        let q = flat_index(n1 as int, n2 as int, i, j, k);
                        lemma_flat_index(n0 as int, n1 as int, n2 as int, i, j, k);
                        assert(before.cell(i, j, k) == before.cells@[q]);
                        if q == qd as int {
                            lemma_flat_index_injective(
                                n1 as int,
                                n2 as int,
                                i,
                                j,
                                k,
                                s as int,
                                (r_offset + r) as int,
                                f as int,
                            );
                        } else {
                            assert(self.cells@[q] == before.cells@[q]);
                            if i == s && j == r_offset + r && k == f {
                                assert(false);
                            }
                        }
                    }
                    f = f + 1;
                }
                r = r + 1;
            }
            s = s + 1;
        }
    }
}

/// The paired dense transfer tensor: coherent `H_coh` and the absolute
/// incoherent energy `P_incoh_abs`, both `[sub_source, receiver, band]`,
/// row-major (band-contiguous).
pub struct TensorPair<C, E> {
    /// Phase-preserving coherent transfer per `(sub_source, receiver, band)`.
    pub h_coh: Grid3<C>,
    /// Absolute incoherent energy `|H_ff|²·p_incoh` per cell (real, ≥ 0).
    pub p_incoh_abs: Grid3<E>,
}

impl<C: Copy, E: Copy> TensorPair<C, E> {
    /// A pair of the given `(n_sub, n_rcv, n_band)` shape with every cell set
    /// to the channel's zero.
    pub fn zeros(shape: (usize, usize, usize), h_zero: C, p_zero: E) -> (t: Self)
        requires
            cell_count(shape) <= usize::MAX,
        ensures
            t.h_coh.wf(),
            t.p_incoh_abs.wf(),
            t.h_coh.dims() == shape,
            t.p_incoh_abs.dims() == shape,
            forall|i: int, j: int, k: int|
                in_grid(shape, i, j, k) ==> #[trigger] t.h_coh.cell(i, j, k) == h_zero
                    && t.p_incoh_abs.cell(i, j, k) == p_zero,
    {
        TensorPair { h_coh: Grid3::filled(shape, h_zero), p_incoh_abs: Grid3::filled(shape, p_zero) }
    }

    /// The `(n_sub, n_rcv, n_band)` shape of the coherent store.
    pub fn dim(&self) -> (d: (usize, usize, usize))
        ensures
            d == self.h_coh.dims(),
    {
        self.h_coh.dim()
    }
}

/// The channel-shape check shared by the sink and the incoherent readout:
/// both channels must have the same dims.
pub fn check_channel_shapes(h_dim: (usize, usize, usize), p_dim: (usize, usize, usize)) -> (r:
    Result<(), SinkError>)
    ensures
        r is Ok <==> h_dim == p_dim,
        r matches Err(e) ==> e == (SinkError::ChannelShapeMismatch { h_coh: h_dim, p_incoh: p_dim }),
{
    if h_dim.0 != p_dim.0 || h_dim.1 != p_dim.1 || h_dim.2 != p_dim.2 {
        return Err(SinkError::ChannelShapeMismatch { h_coh: h_dim, p_incoh: p_dim });
    }
    Ok(())
}

/// The error a chunk at `r_offset` with channel dims `hd`/`pd` earns against
/// a backing store of dims `shape`, in the order the sink checks: channel
/// agreement, band count, sub-source count, receiver span, then finiteness of
/// each channel. `None` when the chunk is accepted.
pub open spec fn chunk_error(
    shape: (usize, usize, usize),
    r_offset: usize,
    hd: (usize, usize, usize),
    pd: (usize, usize, usize),
    h_finite: bool,
    p_finite: bool,
) -> Option<SinkError> {
    if pd != hd {
        Some(SinkError::ChannelShapeMismatch { h_coh: hd, p_incoh: pd })
    } else if hd.2 != N_BANDS {
        Some(SinkError::BandCountMismatch { expected: N_BANDS, got: hd.2 })
    } else if hd.0 != shape.0 {
        Some(SinkError::SubCountMismatch { expected: shape.0, got: hd.0 })
    } else if r_offset + hd.1 > shape.1 {
        Some(SinkError::ChunkOutOfBounds { r_offset, chunk_len: hd.1, n_receivers: shape.1 })
    } else if !h_finite {
        Some(SinkError::NonFinite { what: "chunk H_coh" })
    } else if !p_finite {
        Some(SinkError::NonFinite { what: "chunk P_incoh_abs" })
    } else {
        None
    }
}

/// A chunk is accepted exactly when its two channels have one shape, that
/// shape has [`N_BANDS`] bands and the store's sub-source count, its receiver
/// span `[r_offset, r_offset + chunk_len)` lies inside the store's receivers,
/// and both channels are finite. A refused chunk names the first failing
/// check, with the observed values.
pub proof fn lemma_chunk_accepted_exactly_when_it_fits(
    shape: (usize, usize, usize),
    r_offset: usize,
    hd: (usize, usize, usize),
    pd: (usize, usize, usize),
    h_finite: bool,
    p_finite: bool,
)
    ensures
        chunk_error(shape, r_offset, hd, pd, h_finite, p_finite) is None <==> {
            &&& hd == pd
            &&& hd.2 == N_BANDS
            &&& hd.0 == shape.0
            &&& r_offset + hd.1 <= shape.1
            &&& h_finite
            &&& p_finite
        },
        pd != hd ==> chunk_error(shape, r_offset, hd, pd, h_finite, p_finite) == Some(
            (SinkError::ChannelShapeMismatch { h_coh: hd, p_incoh: pd }),
        ),
        pd == hd && hd.2 != N_BANDS ==> chunk_error(shape, r_offset, hd, pd, h_finite, p_finite)
            == Some((SinkError::BandCountMismatch { expected: N_BANDS, got: hd.2 })),
        pd == hd && hd.2 == N_BANDS && hd.0 != shape.0 ==> chunk_error(
            shape,
            r_offset,
            hd,
            pd,
            h_finite,
            p_finite,
        ) == Some((SinkError::SubCountMismatch { expected: shape.0, got: hd.0 })),
        pd == hd && hd.2 == N_BANDS && hd.0 == shape.0 && r_offset + hd.1 > shape.1 ==> chunk_error(
            shape,
            r_offset,
            hd,
            pd,
            h_finite,
            p_finite,
        ) == Some(
            (SinkError::ChunkOutOfBounds { r_offset, chunk_len: hd.1, n_receivers: shape.1 }),
        ),
        pd == hd && hd.2 == N_BANDS && hd.0 == shape.0 && r_offset + hd.1 <= shape.1 && !h_finite
            ==> chunk_error(shape, r_offset, hd, pd, h_finite, p_finite) == Some(
            (SinkError::NonFinite { what: "chunk H_coh" }),
        ),
        pd == hd && hd.2 == N_BANDS && hd.0 == shape.0 && r_offset + hd.1 <= shape.1 && h_finite
            && !p_finite ==> chunk_error(shape, r_offset, hd, pd, h_finite, p_finite) == Some(
            (SinkError::NonFinite { what: "chunk P_incoh_abs" }),
        ),
{
}

/// The byte footprint of a chunk of dims `d` across the pair.
pub open spec fn chunk_bytes(d: (usize, usize, usize)) -> int {
    cell_count(d) * BYTES_PER_CELL_PAIR
}

/// A sink that materializes the full pair in memory and tracks the largest
/// single chunk it has been handed (the high-water-mark byte counter).
pub struct InMemorySink<C, E> {
    pair: TensorPair<C, E>,
    high_water_bytes: usize,
}

impl<C, E> InMemorySink<C, E> {
    /// Both stores are well formed, of one shape `(n_sub, n_rcv, N_BANDS)`,
    /// and the byte footprint of the whole pair fits a `usize`.
    pub closed spec fn wf(&self) -> bool {
        &&& self.pair.h_coh.wf()
        &&& self.pair.p_incoh_abs.wf()
        &&& self.pair.h_coh.dims() == self.pair.p_incoh_abs.dims()
        &&& self.pair.h_coh.dims().2 == N_BANDS
        &&& chunk_bytes(self.pair.h_coh.dims()) <= usize::MAX
    }

    /// The `(n_sub, n_rcv, N_BANDS)` shape of the backing store.
    pub closed spec fn shape(&self) -> (usize, usize, usize) {
        self.pair.h_coh.dims()
    }

    /// The assembled pair.
    pub closed spec fn pair(&self) -> TensorPair<C, E> {
        self.pair
    }

    /// The largest single chunk handed in so far, in bytes.
    pub closed spec fn high_water(&self) -> usize {
        self.high_water_bytes
    }

    /// The coherent value held for `(sub_source, receiver, band)`.
    pub closed spec fn h_at(&self, i: int, j: int, k: int) -> C {
        self.pair.h_coh.cell(i, j, k)
    }

    /// The incoherent energy held for `(sub_source, receiver, band)`.
    pub closed spec fn p_at(&self, i: int, j: int, k: int) -> E {
        self.pair.p_incoh_abs.cell(i, j, k)
    }

    /// The largest single chunk handed in, in bytes across the pair
    /// (`n_sub · chunk_len · N_BANDS · 24`).
    pub fn high_water_bytes(&self) -> (b: usize)
        ensures
            b == self.high_water(),
    {
        self.high_water_bytes
    }

    /// Borrow the assembled tensor pair.
    pub fn tensor(&self) -> (t: &TensorPair<C, E>)
        ensures
            *t == self.pair(),
            self.wf() ==> self.shape().2 == N_BANDS,
            self.wf() ==> {
                &&& t.h_coh.wf()
                &&& t.p_incoh_abs.wf()
                &&& t.h_coh.dims() == self.shape()
                &&& t.p_incoh_abs.dims() == self.shape()
            },
            forall|i: int, j: int, k: int|
                #[trigger] t.h_coh.cell(i, j, k) == self.h_at(i, j, k) && t.p_incoh_abs.cell(i, j, k)
                    == self.p_at(i, j, k),
    {
        &self.pair
    }

    /// Consume the sink, returning the assembled tensor pair.
    pub fn into_tensor(self) -> (t: TensorPair<C, E>)
        ensures
            t == self.pair(),
            self.wf() ==> self.shape().2 == N_BANDS,
            self.wf() ==> {
                &&& t.h_coh.wf()
                &&& t.p_incoh_abs.wf()
                &&& t.h_coh.dims() == self.shape()
                &&& t.p_incoh_abs.dims() == self.shape()
            },
            forall|i: int, j: int, k: int|
                #[trigger] t.h_coh.cell(i, j, k) == self.h_at(i, j, k) && t.p_incoh_abs.cell(i, j, k)
                    == self.p_at(i, j, k),
    {
        self.pair
    }
}

impl<C: Copy, E: Copy> InMemorySink<C, E> {
    /// A sink backing an `(n_sub, n_rcv, N_BANDS)` tensor, every cell at the
    /// channel's zero and the high-water mark at 0.
    pub fn new(n_sub: usize, n_rcv: usize, h_zero: C, p_zero: E) -> (sink: Self)
        requires
            chunk_bytes((n_sub, n_rcv, N_BANDS)) <= usize::MAX,
        ensures
            sink.wf(),
            sink.shape() == (n_sub, n_rcv, N_BANDS),
            sink.high_water() == 0,
            forall|i: int, j: int, k: int|
                in_grid(sink.shape(), i, j, k) ==> #[trigger] sink.h_at(i, j, k) == h_zero
                    && sink.p_at(i, j, k) == p_zero,
    {
        let shape = (n_sub, n_rcv, N_BANDS);
        proof {
            assert(cell_count(shape) <= chunk_bytes(shape)) by (nonlinear_arith)
                requires
                    cell_count(shape) >= 0,
            ;
        }
        InMemorySink { pair: TensorPair::zeros(shape, h_zero, p_zero), high_water_bytes: 0 }
    }

    /// Receive one receiver-axis chunk covering `[r_offset, r_offset+chunk_len)`.
    ///
    /// Both chunk channels are `[n_sub, chunk_len, N_BANDS]`; `h_finite` and
    /// `p_finite` say whether every cell of the channel is finite. The chunk
    /// is validated before any cell is touched (see [`chunk_error`]); a
    /// rejected chunk leaves the sink as it was. An accepted chunk overwrites
    /// exactly its receiver span of both stores and raises the high-water mark
    /// to the chunk's byte footprint if that is larger.
    pub fn put_chunk(
        &mut self,
        r_offset: usize,
        h_coh: &Grid3<C>,
        p_incoh_abs: &Grid3<E>,
        h_finite: bool,
        p_finite: bool,
    ) -> (r: Result<(), SinkError>)
        requires
            old(self).wf(),
            h_coh.wf(),
            p_incoh_abs.wf(),
        ensures
            final(self).wf(),
            final(self).shape() == old(self).shape(),
            r is Ok <==> {
                &&& h_coh.dims() == p_incoh_abs.dims()
                &&& h_coh.dims().2 == N_BANDS
                &&& h_coh.dims().0 == old(self).shape().0
                &&& r_offset + h_coh.dims().1 <= old(self).shape().1
                &&& h_finite
                &&& p_finite
            },
            match r {
                Err(e) => chunk_error(
                    old(self).shape(),
                    r_offset,
                    h_coh.dims(),
                    p_incoh_abs.dims(),
                    h_finite,
                    p_finite,
                ) == Some(e) && *final(self) == *old(self),
                Ok(()) => {
                    &&& chunk_error(
                        old(self).shape(),
                        r_offset,
                        h_coh.dims(),
                        p_incoh_abs.dims(),
                        h_finite,
                        p_finite,
                    ) is None
                    &&& final(self).high_water() == if chunk_bytes(h_coh.dims()) > old(self).high_water() {
                        chunk_bytes(h_coh.dims())
                    } else {
                        old(self).high_water() as int
                    }
                    &&& forall|i: int, j: int, k: int|
                        in_grid(old(self).shape(), i, j, k) ==> if r_offset <= j < r_offset
                            + h_coh.dims().1 {
                            #[trigger] final(self).h_at(i, j, k) == h_coh.cell(i, j - r_offset, k)
                                && final(self).p_at(i, j, k) == p_incoh_abs.cell(i, j - r_offset, k)
                        } else {
                            final(self).h_at(i, j, k) == old(self).h_at(i, j, k) && final(self).p_at(i, j, k) == old(self).p_at(i, j, k)
                        }
                },
            },
    {
        let hd = h_coh.dim();
        let pd = p_incoh_abs.dim();
        check_channel_shapes(hd, pd)?;
        if hd.2 != N_BANDS {
            return Err(SinkError::BandCountMismatch { expected: N_BANDS, got: hd.2 });
        }
        let (n_sub, n_rcv, _) = self.pair.h_coh.dim();
        if hd.0 != n_sub {
            return Err(SinkError::SubCountMismatch { expected: n_sub, got: hd.0 });
        }
        if hd.1 > n_rcv || r_offset > n_rcv - hd.1 {
            return Err(
                SinkError::ChunkOutOfBounds { r_offset, chunk_len: hd.1, n_receivers: n_rcv },
            );
        }
        if !h_finite {
            return Err(SinkError::NonFinite { what: "chunk H_coh" });
        }
        if !p_finite {
            return Err(SinkError::NonFinite { what: "chunk P_incoh_abs" });
        }
        proof {
            assert(chunk_bytes(hd) <= chunk_bytes(self.shape())) by (nonlinear_arith)
                requires
                    hd.0 == self.shape().0,
                    hd.1 <= self.shape().1,
                    hd.2 == self.shape().2,
            ;
            assert(cell_count(self.shape()) <= usize::MAX) by (nonlinear_arith)
                requires
                    chunk_bytes(self.shape()) <= usize::MAX,
                    cell_count(self.shape()) >= 0,
            ;
            assert(cell_count(hd) >= 0) by (nonlinear_arith);
            assert(hd.0 * hd.1 <= cell_count(hd) <= chunk_bytes(hd)) by (nonlinear_arith)
                requires
                    hd.2 == N_BANDS,
                    hd.0 * hd.1 >= 0,
            ;
        }
        self.pair.h_coh.write_span(h_coh, r_offset);
        self.pair.p_incoh_abs.write_span(p_incoh_abs, r_offset);
        let bytes = hd.0 * hd.1 * hd.2 * BYTES_PER_CELL_PAIR;
        if bytes > self.high_water_bytes {
            self.high_water_bytes = bytes;
        }
        Ok(())
    }
}

/// The shape check of a per-sub-source readout gain (or weight) `g` against a
/// tensor with `n_sub` sub-sources and `n_f` bands, in the readouts' order:
/// the sub-source count first, then for each sub-source in turn its band
/// count and then whether all its values are finite (`finite[s]`, decided by
/// the caller); `what` names the gain in the non-finite error.
pub fn validate_gain<T>(
    g: &Vec<Vec<T>>,
    finite: &Vec<bool>,
    n_sub: usize,
    n_f: usize,
    what: &'static str,
) -> (r: Result<(), SinkError>)
    requires
        finite@.len() == g@.len(),
    ensures
        r is Ok <==> (g@.len() == n_sub && forall|s: int|
            0 <= s < g@.len() ==> #[trigger] g@[s]@.len() == n_f && finite@[s]),
        g@.len() != n_sub <==> r == Err::<(), SinkError>(
            SinkError::GainSubCountMismatch { expected: n_sub, got: g@.len() as usize },
        ),
        r matches Err(SinkError::GainSubCountMismatch { .. }) ==> g@.len() != n_sub,
        r matches Err(SinkError::GainBandCountMismatch { sub, expected, got }) ==> {
            &&& g@.len() == n_sub
            &&& sub < g@.len()
            &&& expected == n_f
            &&& got == g@[sub as int]@.len()
            &&& got != n_f
            &&& forall|s: int| 0 <= s < sub ==> #[trigger] g@[s]@.len() == n_f && finite@[s]
        },
        r matches Err(SinkError::NonFinite { what: w }) ==> w == what && g@.len() == n_sub && exists|
            sub: int,
        |
            0 <= sub < g@.len() && #[trigger] g@[sub]@.len() == n_f && !finite@[sub] && forall|s: int|
                0 <= s < sub ==> #[trigger] g@[s]@.len() == n_f && finite@[s],
        r matches Err(e) ==> (e is GainSubCountMismatch || e is GainBandCountMismatch
            || e is NonFinite),
{
    if g.len() != n_sub {
        return Err(SinkError::GainSubCountMismatch { expected: n_sub, got: g.len() });
    }
    let mut s: usize = 0;
    while s < g.len()
        invariant
            s <= g@.len(),
            g@.len() == n_sub,
            finite@.len() == g@.len(),
            forall|t: int| 0 <= t < s ==> #[trigger] g@[t]@.len() == n_f && finite@[t],
        decreases g@.len() - s,
    {
        let gs = &g[s];
        let len = gs.len();
        assert(len == g@[s as int]@.len());
        if len != n_f {
            return Err(SinkError::GainBandCountMismatch { sub: s, expected: n_f, got: len });
        }
        if !finite[s] {
            assert(g@[s as int]@.len() == n_f && !finite@[s as int]);
            return Err(SinkError::NonFinite { what });
        }
        assert(g@[s as int]@.len() == n_f && finite@[s as int]);
        let ghost prev = s;
        s = s + 1;
        assert forall|t: int| 0 <= t < s implies #[trigger] g@[t]@.len() == n_f && finite@[t] by {
            if t < prev {
            } else {
                assert(t == prev);
            }
        }
    }
    Ok(())
}

} // verus!
