//! The pet's alpha silhouette, read back from the off-screen canvas and
//! reduced to a grid of cells. Hit tests and input regions are built from it.
//!
//! The canvas bytes are RGBA rows of `padded_row` bytes each; only alpha is
//! looked at, and only every `SAMPLE_STEP`-th pixel in each direction.
use vstd::prelude::*;

verus! {

/// Cell edge in physical pixels.
pub const CELL: u32 = 8;

/// Alpha at or above this marks a cell as part of the pet.
pub const ALPHA_THRESHOLD: u8 = 24;

/// Stride between sampled pixels, in both directions.
pub const SAMPLE_STEP: u32 = 2;

/// An axis-aligned rectangle in logical pixels.
#[derive(Debug, Clone, Copy, PartialEq, Eq)]
pub struct Rect {
    pub x: i32,
    pub y: i32,
    pub w: u32,
    pub h: u32,
}

/// A coverage grid: `covered[row * cols + col]` tells whether that cell is pet.
pub struct Mask {
    cols: u32,
    rows: u32,
    covered: Vec<bool>,
}

/// Number of cells needed to cover `len` pixels (at least one).
pub open spec fn cells_for(len: int) -> int {
    let n = (len + CELL - 1) / (CELL as int);
    if n < 1 { 1 } else { n }
}

/// Byte offset of the alpha channel of pixel `(x, y)`.
pub open spec fn alpha_offset(padded_row: int, x: int, y: int) -> int {
    y * padded_row + x * 4 + 3
}

/// Pixel `(x, y)` is one of the sampled ones inside the canvas.
pub open spec fn is_sample(canvas: (u32, u32), x: int, y: int) -> bool {
    &&& 0 <= x < canvas.0
    &&& 0 <= y < canvas.1
    &&& x % (SAMPLE_STEP as int) == 0
    &&& y % (SAMPLE_STEP as int) == 0
}

/// Every sampled pixel's alpha byte lies inside `bytes`.
pub open spec fn samples_in_bounds(bytes: Seq<u8>, canvas: (u32, u32), padded_row: u32) -> bool {
    forall|x: int, y: int|
        #[trigger] is_sample(canvas, x, y) ==> alpha_offset(padded_row as int, x, y) < bytes.len()
}

/// Sampled pixel `(x, y)` is opaque enough to count.
pub open spec fn sample_hits(bytes: Seq<u8>, canvas: (u32, u32), padded_row: u32, x: int, y: int) -> bool {
    &&& is_sample(canvas, x, y)
    &&& bytes[alpha_offset(padded_row as int, x, y)] >= ALPHA_THRESHOLD
}

/// Cell `(col, row)` holds at least one opaque sampled pixel.
pub open spec fn cell_hit(bytes: Seq<u8>, canvas: (u32, u32), padded_row: u32, col: int, row: int) -> bool {
    exists|x: int, y: int|
        #[trigger] sample_hits(bytes, canvas, padded_row, x, y)
            && x / (CELL as int) == col && y / (CELL as int) == row
}

/// The rectangle that covers columns `[start, end)` of `row`, scaled from
/// physical cells (`cols * CELL` by `rows * CELL` pixels) to `logical`.
pub open spec fn run_rect(cols: int, rows: int, logical: (u32, u32), start: int, end: int, row: int) -> Rect {
    let x = start * logical.0 / cols;
    let y = row * logical.1 / rows;
    let w = ((end - start) * logical.0 + cols - 1) / cols;
    let h = (logical.1 + rows - 1) / rows;
    Rect {
        x: if x > i32::MAX { i32::MAX } else { x as i32 },
        y: if y > i32::MAX { i32::MAX } else { y as i32 },
        w: if w < 1 { 1 } else if w > u32::MAX { u32::MAX } else { w as u32 },
        h: if h < 1 { 1 } else if h > u32::MAX { u32::MAX } else { h as u32 },
    }
}

/// The rectangles of the maximal covered runs found when scanning from cell
/// `(col, row)` onwards, row by row; `run` is where the currently open run began.
pub open spec fn runs_from(
    covered: Seq<bool>,
    cols: int,
    rows: int,
    logical: (u32, u32),
    row: int,
    col: int,
    run: Option<int>,
) -> Seq<Rect>
    decreases rows - row, cols + 1 - col,
{
    if row >= rows || cols < 0 {
        Seq::empty()
    } else if col > cols {
        runs_from(covered, cols, rows, logical, row + 1, 0, None)
    } else {
        let here = col < cols && covered[row * cols + col];
        if here && run is None {
            runs_from(covered, cols, rows, logical, row, col + 1, Some(col))
        } else if !here && run is Some {
            seq![run_rect(cols, rows, logical, run->0, col, row)]
                + runs_from(covered, cols, rows, logical, row, col + 1, None)
        } else {
            runs_from(covered, cols, rows, logical, row, col + 1, run)
        }
    }
}

/// No covered cell at or after `(col, row)` in scan order.
pub open spec fn none_after(covered: Seq<bool>, cols: int, rows: int, row: int, col: int) -> bool {
    forall|r: int, c: int|
        0 <= c < cols && r < rows && ((r == row && c >= col) || row < r) ==> !#[trigger] covered[r * cols + c]
}

proof fn lemma_runs_empty(
    covered: Seq<bool>,
    cols: int,
    rows: int,
    logical: (u32, u32),
    row: int,
    col: int,
    run: Option<int>,
)
    requires
        cols >= 1,
        0 <= row,
        0 <= col <= cols + 1,
        col == cols + 1 ==> run is None,
    ensures
        (runs_from(covered, cols, rows, logical, row, col, run).len() == 0) <==> (row >= rows || (run is None
            && none_after(covered, cols, rows, row, col))),
    decreases rows - row, cols + 1 - col,
{
    if row >= rows {
    } else if col > cols {
        lemma_runs_empty(covered, cols, rows, logical, row + 1, 0, None);
        assert(none_after(covered, cols, rows, row, col) == none_after(covered, cols, rows, row + 1, 0));
    } else {
        let here = col < cols && covered[row * cols + col];
        if here && run is None {
            lemma_runs_empty(covered, cols, rows, logical, row, col + 1, Some(col));
            assert(!none_after(covered, cols, rows, row, col)) by {
                assert(covered[row * cols + col]);
            }
        } else if !here && run is Some {
        } else {
            lemma_runs_empty(covered, cols, rows, logical, row, col + 1, run);
            if !here {
                assert(none_after(covered, cols, rows, row, col) == none_after(covered, cols, rows, row, col + 1));
            }
        }
    }
}

/// `r` lies within a `logical`-sized area anchored at the origin.
pub open spec fn inside(r: Rect, logical: (u32, u32)) -> bool {
    &&& r.x >= 0
    &&& r.y >= 0
    &&& r.x + r.w <= logical.0
    &&& r.y + r.h <= logical.1
}

proof fn lemma_span_fits(s: int, e: int, c: int, l: int)
    requires
        0 <= s < e <= c,
        1 <= l,
    ensures
        0 <= s * l / c,
        1 <= ((e - s) * l + c - 1) / c,
        s * l / c + ((e - s) * l + c - 1) / c <= l,
{
    let a = s * l;
    let b = (e - s) * l + c - 1;
    let q1 = a / c;
    let q2 = b / c;
    let r1 = a % c;
    let r2 = b % c;
    vstd::arithmetic::div_mod::lemma_fundamental_div_mod(a, c);
    vstd::arithmetic::div_mod::lemma_fundamental_div_mod(b, c);
    vstd::arithmetic::div_mod::lemma_mod_bound(a, c);
    vstd::arithmetic::div_mod::lemma_mod_bound(b, c);
    assert(0 <= a) by (nonlinear_arith)
        requires
            a == s * l,
            0 <= s,
            1 <= l,
    ;
    assert((e - s) * l >= 1) by (nonlinear_arith)
        requires
            e - s >= 1,
            l >= 1,
    ;
    assert(e * l <= c * l) by (nonlinear_arith)
        requires
            e <= c,
            l >= 1,
    ;
    assert(a + (e - s) * l == e * l) by (nonlinear_arith)
        requires
            a == s * l,
    ;
    assert(q1 >= 0) by (nonlinear_arith)
        requires
            a == c * q1 + r1,
            0 <= r1 < c,
            a >= 0,
    ;
    assert(q2 >= 1) by (nonlinear_arith)
        requires
            b == c * q2 + r2,
            0 <= r2 < c,
            b >= c,
    ;
    assert(q1 + q2 <= l) by (nonlinear_arith)
        requires
            a == c * q1 + r1,
            b == c * q2 + r2,
            0 <= r1,
            0 <= r2,
            a + (e - s) * l == e * l,
            e * l <= c * l,
            b == (e - s) * l + c - 1,
            c >= 1,
    ;
}

proof fn lemma_run_rect_inside(cols: int, rows: int, logical: (u32, u32), s: int, e: int, row: int)
    requires
        0 <= s < e <= cols,
        0 <= row < rows,
        logical.0 >= 1,
        logical.1 >= 1,
    ensures
        inside(run_rect(cols, rows, logical, s, e, row), logical),
{
    lemma_span_fits(s, e, cols, logical.0 as int);
    lemma_span_fits(row, row + 1, rows, logical.1 as int);
    assert((row + 1 - row) * logical.1 == logical.1 as int) by (nonlinear_arith);
}

proof fn lemma_runs_inside(
    covered: Seq<bool>,
    cols: int,
    rows: int,
    logical: (u32, u32),
    row: int,
    col: int,
    run: Option<int>,
)
    requires
        cols >= 1,
        0 <= row,
        0 <= col <= cols + 1,
        run matches Some(s) ==> 0 <= s < col <= cols,
        logical.0 >= 1,
        logical.1 >= 1,
    ensures
        forall|i: int|
            0 <= i < runs_from(covered, cols, rows, logical, row, col, run).len() ==> inside(
                #[trigger] runs_from(covered, cols, rows, logical, row, col, run)[i],
                logical,
            ),
    decreases rows - row, cols + 1 - col,
{
    let all = runs_from(covered, cols, rows, logical, row, col, run);
    if row >= rows {
        assert(all.len() == 0);
    } else if col > cols {
        let next = runs_from(covered, cols, rows, logical, row + 1, 0, None);
        lemma_runs_inside(covered, cols, rows, logical, row + 1, 0, None);
        assert(all == next);
    } else {
        let here = col < cols && covered[row * cols + col];
        if here && run is None {
            lemma_runs_inside(covered, cols, rows, logical, row, col + 1, Some(col));
            assert(all == runs_from(covered, cols, rows, logical, row, col + 1, Some(col)));
        } else if !here && run is Some {
            lemma_runs_inside(covered, cols, rows, logical, row, col + 1, None);
            lemma_run_rect_inside(cols, rows, logical, run->0, col, row);
            let head = seq![run_rect(cols, rows, logical, run->0, col, row)];
            let tail = runs_from(covered, cols, rows, logical, row, col + 1, None);
            assert(all == head + tail);
            assert forall|i: int| 0 <= i < all.len() implies inside(#[trigger] all[i], logical) by {
                if i > 0 {
                    assert(all[i] == tail[i - 1]);
                } else {
                    assert(all[i] == head[0]);
                }
            }
        } else {
            if run matches Some(s) {
                assert(col < cols);
            }
            lemma_runs_inside(covered, cols, rows, logical, row, col + 1, run);
            assert(all == runs_from(covered, cols, rows, logical, row, col + 1, run));
        }
    }
}

/// Every rectangle of a coverage grid lies inside the logical area it is
/// scaled to (when that area is at least one pixel each way).
pub proof fn lemma_rects_inside(covered: Seq<bool>, cols: int, rows: int, logical: (u32, u32))
    requires
        cols >= 1,
        logical.0 >= 1,
        logical.1 >= 1,
    ensures
        forall|i: int|
            0 <= i < runs_from(covered, cols, rows, logical, 0, 0, None).len() ==> inside(
                #[trigger] runs_from(covered, cols, rows, logical, 0, 0, None)[i],
                logical,
            ),
{
    lemma_runs_inside(covered, cols, rows, logical, 0, 0, None);
}

impl Mask {
    pub closed spec fn spec_cols(&self) -> nat {
        self.cols as nat
    }

    pub closed spec fn spec_rows(&self) -> nat {
        self.rows as nat
    }

    /// Coverage, row-major.
    pub closed spec fn cells(&self) -> Seq<bool> {
        self.covered@
    }

    /// The grid is as large as its dimensions say.
    pub open spec fn wf(&self) -> bool {
        self.cells().len() == self.spec_cols() * self.spec_rows()
    }

    /// Cell `(col, row)` is covered.
    pub open spec fn covers(&self, col: int, row: int) -> bool {
        0 <= col < self.spec_cols() && 0 <= row < self.spec_rows()
            && self.cells()[row * self.spec_cols() + col]
    }

    pub fn cols(&self) -> (r: u32)
        ensures
            r == self.spec_cols(),
    {
        self.cols
    }

    pub fn rows(&self) -> (r: u32)
        ensures
            r == self.spec_rows(),
    {
        self.rows
    }

    /// Whether cell `(col, row)` is pet; cells outside the grid are not.
    pub fn covered_at(&self, col: u32, row: u32) -> (r: bool)
        requires
            self.wf(),
        ensures
            r == self.covers(col as int, row as int),
    {
        if col < self.cols && row < self.rows {
            proof {
                lemma_cell_index(col as int, row as int, self.cols as int, self.rows as int);
            }
            let len = self.covered.len();
            assert(len == self.covered@.len());
            let i: usize = row as usize * self.cols as usize + col as usize;
            self.covered[i]
        } else {
            false
        }
    }

    /// Nothing in the grid is covered.
    pub fn is_empty(&self) -> (r: bool)
        ensures
            r == (forall|i: int| 0 <= i < self.cells().len() ==> !#[trigger] self.cells()[i]),
    {
        let n = self.covered.len();
        let mut i: usize = 0;
        while i < n
            invariant
                n == self.covered@.len(),
                i <= n,
                forall|j: int| 0 <= j < i ==> !#[trigger] self.covered@[j],
            decreases n - i,
        {
            if self.covered[i] {
                assert(self.cells()[i as int]);
                return false;
            }
            i = i + 1;
        }
        true
    }

    /// The covered area as a union of rectangles in logical pixels: per row,
    /// one rectangle per maximal run of covered cells, scaled so that the
    /// whole grid spans `logical_size`. Positions are the floor and extents
    /// the ceiling (at least 1) of the exactly scaled values, computed in
    /// integers.
    pub fn rects(&self, logical_size: (u32, u32)) -> (out: Vec<Rect>)
        requires
            self.wf(),
            self.spec_cols() >= 1,
            self.spec_rows() >= 1,
        ensures
            out@ == runs_from(
                self.cells(),
                self.spec_cols() as int,
                self.spec_rows() as int,
                logical_size,
                0,
                0,
                None,
            ),
            (out@.len() == 0) == (forall|i: int| 0 <= i < self.cells().len() ==> !#[trigger] self.cells()[i]),
            logical_size.0 >= 1 && logical_size.1 >= 1 ==> forall|i: int|
                0 <= i < out@.len() ==> inside(#[trigger] out@[i], logical_size),
    {
        let ghost cov = self.covered@;
        let ghost cols_i = self.cols as int;
        let ghost rows_i = self.rows as int;
        let ghost all = runs_from(cov, cols_i, rows_i, logical_size, 0, 0, None);
        let mut out: Vec<Rect> = Vec::new();
        let len = self.covered.len();
        assert(len == self.covered@.len());
        let mut row: u32 = 0;
        while row < self.rows
            invariant
                self.wf(),
                cov == self.covered@,
                cols_i == self.cols,
                rows_i == self.rows,
                cols_i >= 1,
                len == cov.len(),
                row <= self.rows,
                all == runs_from(cov, cols_i, rows_i, logical_size, 0, 0, None),
                out@ + runs_from(cov, cols_i, rows_i, logical_size, row as int, 0, None) == all,
            decreases self.rows - row,
        {
            let mut run: Option<u32> = None;
            let mut col: u64 = 0;
            while col <= self.cols as u64
                invariant
                    self.wf(),
                    cov == self.covered@,
                    cols_i == self.cols,
                    rows_i == self.rows,
                    cols_i >= 1,
                    len == cov.len(),
                    row < self.rows,
                    col <= self.cols + 1,
                    run matches Some(s) ==> s < col,
                    out@ + runs_from(
                        cov,
                        cols_i,
                        rows_i,
                        logical_size,
                        row as int,
                        col as int,
                        match run {
                            Some(s) => Some(s as int),
                            None => None,
                        },
                    ) == all,
                decreases self.cols + 1 - col,
            {
                let here = if col < self.cols as u64 {
                    proof {
                        lemma_cell_index(col as int, row as int, cols_i, rows_i);
                    }
                    self.covered[row as usize * self.cols as usize + col as usize]
                } else {
                    false
                };
                let ghost before = out@;
                match run {
                    None => {
                        if here {
                            run = Some(col as u32);
                        }
                    },
                    Some(start) => {
                        if !here {
                            let r = make_rect(self.cols, self.rows, logical_size, start, col as u32, row);
                            out.push(r);
                            assert(out@ == before + seq![r]);
                            run = None;
                        }
                    },
                }
                col = col + 1;
            }
            row = row + 1;
        }
        assert(runs_from(cov, cols_i, rows_i, logical_size, row as int, 0, None) == Seq::<Rect>::empty());
        assert(out@ == all);
        proof {
            lemma_runs_empty(cov, cols_i, rows_i, logical_size, 0, 0, None);
            if forall|i: int| 0 <= i < cov.len() ==> !#[trigger] cov[i] {
                assert forall|r: int, c: int|
                    0 <= c < cols_i && r < rows_i && ((r == 0 && c >= 0) || 0 < r) implies !#[trigger] cov[r
                    * cols_i + c] by {
                    lemma_cell_index(c, r, cols_i, rows_i);
                }
            }
            if none_after(cov, cols_i, rows_i, 0, 0) {
                assert forall|i: int| 0 <= i < cov.len() implies !#[trigger] cov[i] by {
                    let r = i / cols_i;
                    let c = i % cols_i;
                    assert(i == r * cols_i + c) by (nonlinear_arith)
                        requires
                            cols_i >= 1,
                            r == i / cols_i,
                            c == i % cols_i,
                    ;
                    assert(r < rows_i) by (nonlinear_arith)
                        requires
                            cols_i >= 1,
                            r == i / cols_i,
                            0 <= i < cols_i * rows_i,
                    ;
                    assert(0 <= r) by (nonlinear_arith)
                        requires
                            cols_i >= 1,
                            r == i / cols_i,
                            0 <= i,
                    ;
                }
            }
        }
        proof {
            if logical_size.0 >= 1 && logical_size.1 >= 1 {
                lemma_rects_inside(cov, cols_i, rows_i, logical_size);
            }
        }
        out
    }
}

proof fn lemma_cell_index(col: int, row: int, cols: int, rows: int)
    requires
        0 <= col < cols,
        0 <= row < rows,
    ensures
        0 <= row * cols + col < cols * rows,
{
    assert(row * cols + col < cols * rows) by (nonlinear_arith)
        requires
            0 <= col < cols,
            0 <= row < rows,
    ;
    assert(0 <= row * cols) by (nonlinear_arith)
        requires
            0 <= row,
            0 <= cols,
    ;
}

/// The exact rectangle of one run; see [`run_rect`].
fn make_rect(cols: u32, rows: u32, logical: (u32, u32), start: u32, end: u32, row: u32) -> (r: Rect)
    requires
        cols >= 1,
        rows >= 1,
        start < end <= cols,
        row < rows,
    ensures
        r == run_rect(cols as int, rows as int, logical, start as int, end as int, row as int),
{
    let c = cols as u64;
    let rw = rows as u64;
    let lw = logical.0 as u64;
    let lh = logical.1 as u64;
    proof {
        assert(start * lw <= c * lw) by (nonlinear_arith)
            requires
                start <= c,
                0 <= lw,
        ;
        assert(c * lw <= 0xffff_ffff * 0xffff_ffff) by (nonlinear_arith)
            requires
                c <= 0xffff_ffff,
                lw <= 0xffff_ffff,
        ;
        assert(row * lh <= rw * lh) by (nonlinear_arith)
            requires
                row <= rw,
                0 <= lh,
        ;
        assert(rw * lh <= 0xffff_ffff * 0xffff_ffff) by (nonlinear_arith)
            requires
                rw <= 0xffff_ffff,
                lh <= 0xffff_ffff,
        ;
        assert((end - start) * lw <= c * lw) by (nonlinear_arith)
            requires
                end - start <= c,
                0 <= lw,
        ;
    }
    let x = (start as u64) * lw / c;
    let y = (row as u64) * lh / rw;
    let w = (((end - start) as u64) * lw + (c - 1)) / c;
    let h = (lh + (rw - 1)) / rw;
    Rect {
        x: if x > 0x7fff_ffff { 0x7fff_ffff } else { x as i32 },
        y: if y > 0x7fff_ffff { 0x7fff_ffff } else { y as i32 },
        w: if w < 1 { 1 } else if w > 0xffff_ffff { 0xffff_ffff } else { w as u32 },
        h: if h < 1 { 1 } else if h > 0xffff_ffff { 0xffff_ffff } else { h as u32 },
    }
}

/// Reduces RGBA canvas bytes to a coverage grid: a cell is covered exactly
/// when one of its sampled pixels has alpha at or above the threshold.
pub fn build(bytes: &[u8], canvas: (u32, u32), padded_row: u32) -> (m: Mask)
    requires
        samples_in_bounds(bytes@, canvas, padded_row),
        cells_for(canvas.0 as int) * cells_for(canvas.1 as int) <= u32::MAX,
    ensures
        m.wf(),
        m.spec_cols() == cells_for(canvas.0 as int),
        m.spec_rows() == cells_for(canvas.1 as int),
        forall|col: int, row: int|
            0 <= col < m.spec_cols() && 0 <= row < m.spec_rows() ==> (#[trigger] m.covers(col, row)
                <==> cell_hit(bytes@, canvas, padded_row, col, row)),
{
    let cols: u32 = if canvas.0 / CELL + (if canvas.0 % CELL == 0 { 0u32 } else { 1u32 }) < 1 {
        1
    } else {
        canvas.0 / CELL + (if canvas.0 % CELL == 0 { 0u32 } else { 1u32 })
    };
    let rows: u32 = if canvas.1 / CELL + (if canvas.1 % CELL == 0 { 0u32 } else { 1u32 }) < 1 {
        1
    } else {
        canvas.1 / CELL + (if canvas.1 % CELL == 0 { 0u32 } else { 1u32 })
    };
    assert(cols == cells_for(canvas.0 as int));
    assert(rows == cells_for(canvas.1 as int));
    let n: u32 = cols * rows;
    let mut covered: Vec<bool> = Vec::new();
    let mut i: u32 = 0;
    while i < n
        invariant
            i <= n,
            covered@.len() == i,
            forall|j: int| 0 <= j < i ==> !#[trigger] covered@[j],
        decreases n - i,
    {
        covered.push(false);
        i = i + 1;
    }
    let ghost bs = bytes@;
    let blen = bytes.len();
    assert(blen == bs.len());
    let mut y: u64 = 0;
    proof {
        assert forall|col: int, row: int| 0 <= col < cols && 0 <= row < rows implies (
        #[trigger] covered@[row * cols + col] <==> exists|x: int, yy: int|
            #[trigger] sample_hits(bs, canvas, padded_row, x, yy) && yy < y && x / (CELL as int) == col
                && yy / (CELL as int) == row) by {
            lemma_cell_index(col, row, cols as int, rows as int);
        }
    }
    while y < canvas.1 as u64
        invariant
            bs == bytes@,
            blen == bs.len(),
            samples_in_bounds(bs, canvas, padded_row),
            cols == cells_for(canvas.0 as int),
            rows == cells_for(canvas.1 as int),
            n == cols * rows,
            covered@.len() == n,
            y % 2 == 0,
            y <= canvas.1 + 1,
            forall|col: int, row: int|
                0 <= col < cols && 0 <= row < rows ==> (#[trigger] covered@[row * cols + col] <==> exists|
                    x: int,
                    yy: int,
                |
                    #[trigger] sample_hits(bs, canvas, padded_row, x, yy) && yy < y && x / (CELL as int) == col
                        && yy / (CELL as int) == row),
        decreases canvas.1 + 1 - y,
    {
        let cell_row: u64 = y / CELL as u64;
        let mut x: u64 = 0;
        while x < canvas.0 as u64
            invariant
                bs == bytes@,
                blen == bs.len(),
                samples_in_bounds(bs, canvas, padded_row),
                cols == cells_for(canvas.0 as int),
                rows == cells_for(canvas.1 as int),
                n == cols * rows,
                covered@.len() == n,
                y % 2 == 0,
                y < canvas.1,
                cell_row == y / 8,
                x % 2 == 0,
                x <= canvas.0 + 1,
                forall|col: int, row: int|
                    0 <= col < cols && 0 <= row < rows ==> (#[trigger] covered@[row * cols + col] <==> exists|
                        xx: int,
                        yy: int,
                    |
                        #[trigger] sample_hits(bs, canvas, padded_row, xx, yy) && (yy < y || (yy == y
                            && xx < x)) && xx / (CELL as int) == col && yy / (CELL as int) == row),
            decreases canvas.0 + 1 - x,
        {
            assert(is_sample(canvas, x as int, y as int));
            let off: usize = y as usize * padded_row as usize + x as usize * 4 + 3;
            assert(off == alpha_offset(padded_row as int, x as int, y as int));
            let alpha = bytes[off];
            let cell_col: u64 = x / CELL as u64;
            proof {
                lemma_cell_of_pixel(x as int, y as int, canvas, cols as int, rows as int);
                lemma_cell_index(cell_col as int, cell_row as int, cols as int, rows as int);
            }
            let ghost old_cov = covered@;
            let clen = covered.len();
            assert(clen == covered@.len());
            let k: usize = cell_row as usize * cols as usize + cell_col as usize;
            if alpha >= ALPHA_THRESHOLD {
                covered[k] = true;
            }
            proof {
                assert forall|col: int, row: int| 0 <= col < cols && 0 <= row < rows implies (
                #[trigger] covered@[row * cols + col] <==> exists|xx: int, yy: int|
                    #[trigger] sample_hits(bs, canvas, padded_row, xx, yy) && (yy < y || (yy == y && xx
                        < x + 2)) && xx / (CELL as int) == col && yy / (CELL as int) == row) by {
                    lemma_cell_index(col, row, cols as int, rows as int);
                    lemma_cell_index_injective(col, row, cell_col as int, cell_row as int, cols as int);
                    let here = row * cols + col == k;
                    if exists|xx: int, yy: int|
                        #[trigger] sample_hits(bs, canvas, padded_row, xx, yy) && (yy < y || (yy == y && xx
                            < x + 2)) && xx / (CELL as int) == col && yy / (CELL as int) == row {
                        let (xx, yy) = choose|xx: int, yy: int|
                            #[trigger] sample_hits(bs, canvas, padded_row, xx, yy) && (yy < y || (yy == y
                                && xx < x + 2)) && xx / (CELL as int) == col && yy / (CELL as int) == row;
                        if yy == y && xx >= x {
                            assert(xx == x);
                            assert(covered@[row * cols + col]);
                        } else {
                            assert(old_cov[row * cols + col]);
                        }
                    }
                    if covered@[row * cols + col] {
                        if !old_cov[row * cols + col] {
                            assert(here);
                            assert(sample_hits(bs, canvas, padded_row, x as int, y as int));
                        }
                    }
                }
            }
            x = x + SAMPLE_STEP as u64;
        }
        proof {
            assert forall|col: int, row: int| 0 <= col < cols && 0 <= row < rows implies (
            #[trigger] covered@[row * cols + col] <==> exists|xx: int, yy: int|
                #[trigger] sample_hits(bs, canvas, padded_row, xx, yy) && yy < y + 2 && xx / (CELL as int)
                    == col && yy / (CELL as int) == row) by {
                if exists|xx: int, yy: int|
                    #[trigger] sample_hits(bs, canvas, padded_row, xx, yy) && yy < y + 2 && xx / (CELL as int)
                        == col && yy / (CELL as int) == row {
                    let (xx, yy) = choose|xx: int, yy: int|
                        #[trigger] sample_hits(bs, canvas, padded_row, xx, yy) && yy < y + 2 && xx / (
                        CELL as int) == col && yy / (CELL as int) == row;
                    assert(yy < y || (yy == y && xx < x));
                }
            }
        }
        y = y + SAMPLE_STEP as u64;
    }
    let m = Mask { cols, rows, covered };
    proof {
        assert forall|col: int, row: int|
            0 <= col < m.spec_cols() && 0 <= row < m.spec_rows() implies (#[trigger] m.covers(col, row)
                <==> cell_hit(bytes@, canvas, padded_row, col, row)) by {
            if cell_hit(bytes@, canvas, padded_row, col, row) {
                let (xx, yy) = choose|xx: int, yy: int|
                    #[trigger] sample_hits(bs, canvas, padded_row, xx, yy) && xx / (CELL as int) == col
                        && yy / (CELL as int) == row;
                assert(yy < y);
            }
        }
    }
    m
}

proof fn lemma_cell_of_pixel(x: int, y: int, canvas: (u32, u32), cols: int, rows: int)
    requires
        0 <= x < canvas.0,
        0 <= y < canvas.1,
        cols == cells_for(canvas.0 as int),
        rows == cells_for(canvas.1 as int),
    ensures
        0 <= x / (CELL as int) < cols,
        0 <= y / (CELL as int) < rows,
{
}

/// A freshly built mask is empty exactly when no sampled pixel of the
/// canvas reaches the alpha threshold: an all-transparent canvas gives an
/// empty mask, and one opaque sample is enough to give a covered cell.
pub proof fn lemma_built_mask_empty_iff_transparent(bytes: Seq<u8>, canvas: (u32, u32), padded_row: u32, m: Mask)
    requires
        m.wf(),
        m.spec_cols() == cells_for(canvas.0 as int),
        m.spec_rows() == cells_for(canvas.1 as int),
        forall|col: int, row: int|
            0 <= col < m.spec_cols() && 0 <= row < m.spec_rows() ==> (#[trigger] m.covers(col, row)
                <==> cell_hit(bytes, canvas, padded_row, col, row)),
    ensures
        (forall|i: int| 0 <= i < m.cells().len() ==> !#[trigger] m.cells()[i]) <==> (forall|x: int, y: int|
            !#[trigger] sample_hits(bytes, canvas, padded_row, x, y)),
{
    let cols = m.spec_cols() as int;
    let rows = m.spec_rows() as int;
    if exists|x: int, y: int| #[trigger] sample_hits(bytes, canvas, padded_row, x, y) {
        let (x, y) = choose|x: int, y: int| #[trigger] sample_hits(bytes, canvas, padded_row, x, y);
        lemma_cell_of_pixel(x, y, canvas, cols, rows);
        let col = x / (CELL as int);
        let row = y / (CELL as int);
        assert(cell_hit(bytes, canvas, padded_row, col, row));
        assert(m.covers(col, row));
        lemma_cell_index(col, row, cols, rows);
        assert(m.cells()[row * cols + col]);
    }
    if exists|i: int| 0 <= i < m.cells().len() && #[trigger] m.cells()[i] {
        let i = choose|i: int| 0 <= i < m.cells().len() && #[trigger] m.cells()[i];
        let r = i / cols;
        let c = i % cols;
        assert(i == r * cols + c && 0 <= c < cols) by (nonlinear_arith)
            requires
                cols >= 1,
                r == i / cols,
                c == i % cols,
        ;
        assert(0 <= r < rows) by (nonlinear_arith)
            requires
                cols >= 1,
                r == i / cols,
                0 <= i < cols * rows,
        ;
        assert(m.covers(c, r));
        assert(cell_hit(bytes, canvas, padded_row, c, r));
    }
}

proof fn lemma_cell_index_injective(c1: int, r1: int, c2: int, r2: int, cols: int)
    requires
        0 <= c1 < cols,
        0 <= c2 < cols,
        0 <= r1,
        0 <= r2,
    ensures
        (r1 * cols + c1 == r2 * cols + c2) <==> (c1 == c2 && r1 == r2),
{
    if r1 < r2 {
        assert(r1 * cols + c1 < r2 * cols + c2) by (nonlinear_arith)
            requires
                r1 < r2,
                0 <= c1 < cols,
                0 <= c2,
        ;
    } else if r2 < r1 {
        assert(r2 * cols + c2 < r1 * cols + c1) by (nonlinear_arith)
            requires
                r2 < r1,
                0 <= c2 < cols,
                0 <= c1,
        ;
    }
}


/// The pet `step` places after `start` in a ring of `count`.
pub open spec fn ring_at(start: int, step: int, count: int) -> int {
    (start + step) % count
}

/// Which pet's silhouette to read back this frame, and the cursor for the
/// next: one pet per frame, the first due one from the cursor on, going
/// round; the cursor moves one place whether or not a pet was due. With
/// no pets nothing is read and the cursor stays.
pub fn pick_readback(due: &Vec<bool>, cursor: usize) -> (r: (Option<usize>, usize))
    ensures
        due@.len() == 0 ==> r == (None::<usize>, cursor),
        due@.len() > 0 ==> {
            let count = due@.len() as int;
            let start = cursor as int % count;
            &&& r.1 == (start + 1) % count
            &&& match r.0 {
                Some(i) => exists|step: int|
                    0 <= step < count && i == ring_at(start, step, count) && due@[i as int]
                        && forall|s: int| 0 <= s < step ==> !due@[#[trigger] ring_at(start, s, count)],
                None => forall|s: int| 0 <= s < count ==> !due@[#[trigger] ring_at(start, s, count)],
            }
        },
{
    let count = due.len();
    if count == 0 {
        return (None, cursor);
    }
    let start = cursor % count;
    let mut step: usize = 0;
    while step < count
        invariant
            count == due@.len(),
            count > 0,
            start < count,
            start == cursor as int % count as int,
            step <= count,
            forall|s: int| 0 <= s < step ==> !due@[#[trigger] ring_at(start as int, s, count as int)],
        decreases count - step,
    {
        let i = if step < count - start { start + step } else { step - (count - start) };
        assert(i == ring_at(start as int, step as int, count as int)) by {
            if step < count - start {
                vstd::arithmetic::div_mod::lemma_small_mod((start + step) as nat, count as nat);
            } else {
                vstd::arithmetic::div_mod::lemma_mod_sub_multiples_vanish((start + step) as int, count as int);
                vstd::arithmetic::div_mod::lemma_small_mod((start + step - count) as nat, count as nat);
            }
        }
        if due[i] {
            return (Some(i), (start + 1) % count);
        }
        step = step + 1;
    }
    (None, (start + 1) % count)
}

} // verus!
