use vstd::prelude::*;
use crate::config::{MEL_BINS, TIME_FRAMES};

verus! {

// ── Fixed-length spectrograms ───────────────────────────────────────────────

/// Rows of a spectrogram fitted to `TIME_FRAMES` frames: a truncated one keeps
/// its rows, a padded one has `MEL_BINS` rows.
pub open spec fn fitted_rows(n_rows: nat, n_frames: nat) -> nat {
    if n_frames >= TIME_FRAMES {
        n_rows
    } else {
        MEL_BINS as nat
    }
}

/// Entry `(row, t)` of a row-major `n_rows × n_frames` spectrogram fitted to
/// `TIME_FRAMES` frames: the input's entry where the frame exists, `fill`
/// past its end; a single-row spectrogram is repeated on every row.
pub open spec fn fitted_entry<T>(data: Seq<T>, n_rows: nat, n_frames: nat, fill: T, row: nat, t: nat) -> T {
    let src = if n_rows == 1 {
        0
    } else {
        row
    };
    if t < n_frames {
        data[(src * n_frames + t) as int]
    } else {
        fill
    }
}

/// The row-major spectrogram fitted to `TIME_FRAMES` frames.
pub open spec fn fitted<T>(data: Seq<T>, n_rows: nat, n_frames: nat, fill: T) -> Seq<T> {
    Seq::new(
        fitted_rows(n_rows, n_frames) * (TIME_FRAMES as nat),
        |k: int| fitted_entry(data, n_rows, n_frames, fill, (k / TIME_FRAMES as int) as nat, (k % TIME_FRAMES as int) as nat),
    )
}

proof fn lemma_row_entry_in_bounds(rows: nat, cols: nat, r: nat, c: nat)
    requires
        r < rows,
        c < cols,
    ensures
        r * cols + c < rows * cols,
{
    assert(r * cols + c < rows * cols) by (nonlinear_arith)
        requires
            r < rows,
            c < cols,
    ;
}

/// Pads (with `fill`) or truncates the time axis of a row-major
/// `n_rows × n_frames` spectrogram to `TIME_FRAMES` frames.  A padded
/// spectrogram has `MEL_BINS` rows; a single row is repeated on each.
pub fn fit_time_axis<T: Copy>(data: &[T], n_rows: usize, n_frames: usize, fill: T) -> (r: Vec<T>)
    requires
        data@.len() == n_rows * n_frames,
        n_frames >= TIME_FRAMES || n_rows == MEL_BINS || n_rows == 1,
    ensures
        r@ == fitted(data@, n_rows as nat, n_frames as nat, fill),
{
    let n_data = data.len();
    let rows = if n_frames >= TIME_FRAMES {
        n_rows
    } else {
        MEL_BINS
    };
    proof {
        if n_frames >= TIME_FRAMES {
            assert(n_rows * TIME_FRAMES <= n_rows * n_frames) by (nonlinear_arith)
                requires
                    n_frames >= TIME_FRAMES,
            ;
        }
    }
    let total = rows * TIME_FRAMES;
    let mut out: Vec<T> = Vec::new();
    let mut k: usize = 0;
    while k < total
        invariant
            data@.len() == n_rows * n_frames,
            n_data == data@.len(),
            n_frames >= TIME_FRAMES || n_rows == MEL_BINS || n_rows == 1,
            rows == fitted_rows(n_rows as nat, n_frames as nat),
            total == rows * TIME_FRAMES,
            k <= total,
            out@.len() == k,
            forall|j: int|
                0 <= j < k ==> #[trigger] out@[j] == fitted_entry(
                    data@,
                    n_rows as nat,
                    n_frames as nat,
                    fill,
                    (j / TIME_FRAMES as int) as nat,
                    (j % TIME_FRAMES as int) as nat,
                ),
        decreases total - k,
    {
        let row = k / TIME_FRAMES;
        let t = k % TIME_FRAMES;
        let v = if t < n_frames {
            let src = if n_rows == 1 {
                0
            } else {
                row
            };
            proof {
                assert(row < rows) by (nonlinear_arith)
                    requires
                        row == k / TIME_FRAMES,
                        k < rows * TIME_FRAMES,
                ;
                if n_rows != 1 {
                    assert(src < n_rows);
                }
                lemma_row_entry_in_bounds(n_rows as nat, n_frames as nat, src as nat, t as nat);
            }
            data[src * n_frames + t]
        } else {
            fill
        };
        out.push(v);
        k += 1;
    }
    assert(out@ =~= fitted(data@, n_rows as nat, n_frames as nat, fill));
    out
}

/// A spectrogram that already has `TIME_FRAMES` frames is left unchanged.
pub proof fn lemma_fit_idempotent<T>(data: Seq<T>, n_rows: nat, fill: T)
    requires
        data.len() == n_rows * TIME_FRAMES,
    ensures
        fitted(data, n_rows, TIME_FRAMES as nat, fill) == data,
{
    let f = fitted(data, n_rows, TIME_FRAMES as nat, fill);
    assert forall|k: int| 0 <= k < data.len() implies #[trigger] f[k] == data[k] by {
        let row = k / TIME_FRAMES as int;
        let t = k % TIME_FRAMES as int;
        vstd::arithmetic::div_mod::lemma_fundamental_div_mod(k, TIME_FRAMES as int);
        assert(k == row * TIME_FRAMES + t);
        if n_rows == 1 {
            assert(row == 0) by (nonlinear_arith)
                requires
                    row == k / TIME_FRAMES as int,
                    0 <= k < TIME_FRAMES,
            ;
        }
    }
    assert(f =~= data);
}

/// Fitting is stable: fitting a fitted spectrogram changes nothing.
pub proof fn lemma_fit_stable<T>(data: Seq<T>, n_rows: nat, n_frames: nat, fill: T)
    requires
        data.len() == n_rows * n_frames,
        n_frames >= TIME_FRAMES || n_rows == MEL_BINS || n_rows == 1,
    ensures
        fitted(data, n_rows, n_frames, fill).len() == fitted_rows(n_rows, n_frames) * TIME_FRAMES,
        fitted(fitted(data, n_rows, n_frames, fill), fitted_rows(n_rows, n_frames), TIME_FRAMES as nat, fill)
            == fitted(data, n_rows, n_frames, fill),
{
    lemma_fit_idempotent(fitted(data, n_rows, n_frames, fill), fitted_rows(n_rows, n_frames), fill);
}

// ── Batches ──────────────────────────────────────────────────────────────────

/// Number of chunks of at most `size` items covering `n` items.
pub open spec fn chunk_total(n: nat, size: nat) -> nat {
    if size == 0 {
        0
    } else {
        ((n + size - 1) as nat) / size
    }
}

/// The item range `[start, end)` of chunk `i`.
pub open spec fn chunk_range(n: nat, size: nat, i: nat) -> (nat, nat) {
    let start = i * size;
    let end = if start + size <= n { start + size } else { n };
    (start, end)
}

/// The ranges of the consecutive chunks of `size` items (the last one
/// possibly shorter) that cover `n` items, in order.
pub fn chunk_bounds(n: usize, size: usize) -> (r: Vec<(usize, usize)>)
    requires
        size > 0,
    ensures
        r@.len() == chunk_total(n as nat, size as nat),
        forall|i: int|
            0 <= i < r@.len() ==> (#[trigger] r@[i]).0 as nat == chunk_range(n as nat, size as nat, i as nat).0
                && r@[i].1 as nat == chunk_range(n as nat, size as nat, i as nat).1,
{
    let mut out: Vec<(usize, usize)> = Vec::new();
    let mut start: usize = 0;
    assert(0 * size == 0) by (nonlinear_arith);
    while start < n
        invariant
            size > 0,
            start as int == out@.len() * size,
            out@.len() > 0 ==> start < n,
            forall|i: int|
                0 <= i < out@.len() ==> (#[trigger] out@[i]).0 as nat == chunk_range(n as nat, size as nat, i as nat).0
                    && out@[i].1 as nat == chunk_range(n as nat, size as nat, i as nat).1,
        decreases n - start,
    {
        let end = if n - start > size {
            start + size
        } else {
            n
        };
        proof {
            assert((out@.len() + 1) * size == out@.len() * size + size) by (nonlinear_arith);
        }
        out.push((start, end));
        if end < n {
            start = end;
        } else {
            proof {
                lemma_chunk_count(n as nat, size as nat, out@.len());
            }
            return out;
        }
    }
    proof {
        lemma_chunk_count(n as nat, size as nat, out@.len());
    }
    out
}

proof fn lemma_chunk_count(n: nat, size: nat, k: nat)
    requires
        size > 0,
        k * size >= n,
        k == 0 || (k - 1) * size < n,
    ensures
        k == chunk_total(n, size),
{
    let q = ((n + size - 1) as nat) / size;
    if k == 0 {
        assert(n == 0);
        assert(q == 0) by (nonlinear_arith)
            requires
                q == ((size - 1) as nat) / size,
                size > 0,
        ;
    } else {
        assert(q == k) by (nonlinear_arith)
            requires
                q == ((n + size - 1) as nat) / size,
                k * size >= n,
                (k - 1) * size < n,
                size > 0,
        ;
    }
}

/// The chunks cover the items in order: each is a non-empty range of at most
/// `size` items starting where the previous one ended, the first starts at 0
/// and the last ends at `n`.
pub proof fn lemma_chunks_cover(n: nat, size: nat, i: nat)
    requires
        size > 0,
        i < chunk_total(n, size),
    ensures
        chunk_range(n, size, i).0 < chunk_range(n, size, i).1 <= n,
        chunk_range(n, size, i).1 - chunk_range(n, size, i).0 <= size,
        i == 0 ==> chunk_range(n, size, i).0 == 0,
        i > 0 ==> chunk_range(n, size, i).0 == chunk_range(n, size, (i - 1) as nat).1,
        i + 1 == chunk_total(n, size) ==> chunk_range(n, size, i).1 == n,
{
    let q = chunk_total(n, size);
    assert(i * size < n) by (nonlinear_arith)
        requires
            i < q,
            q == ((n + size - 1) as nat) / size,
            size > 0,
    ;
    if i > 0 {
        assert(((i - 1) as nat) * size + size == i * size) by (nonlinear_arith)
            requires
                i > 0,
        ;
        assert(((i - 1) as nat) * size + size <= n);
    }
    if i + 1 == q {
        assert(i * size + size >= n) by (nonlinear_arith)
            requires
                i + 1 == q,
                q == ((n + size - 1) as nat) / size,
                size > 0,
        ;
    }
    if i == 0 {
        assert(0 * size == 0) by (nonlinear_arith);
    }
}

/// Rows `rows[0], rows[1], …` of a row-major table with rows of `row_len`
/// items, concatenated.
pub open spec fn gathered<T>(data: Seq<T>, row_len: nat, rows: Seq<usize>) -> Seq<T> {
    Seq::new(
        rows.len() * row_len,
        |k: int| data[rows[k / row_len as int] * row_len + k % row_len as int],
    )
}

/// Concatenates the selected rows of a row-major table whose rows have
/// `row_len` items (a training batch gathered from the flattened data set).
pub fn gather_rows<T: Copy>(data: &[T], row_len: usize, rows: &[usize]) -> (r: Vec<T>)
    requires
        forall|i: int| 0 <= i < rows@.len() ==> (#[trigger] rows@[i] + 1) * row_len <= data@.len(),
        rows@.len() * row_len <= usize::MAX,
    ensures
        r@ == gathered(data@, row_len as nat, rows@),
{
    let n_data = data.len();
    let mut out: Vec<T> = Vec::new();
    let mut i: usize = 0;
    assert(0 * row_len == 0) by (nonlinear_arith);
    while i < rows.len()
        invariant
            forall|i: int| 0 <= i < rows@.len() ==> (#[trigger] rows@[i] + 1) * row_len <= data@.len(),
            rows@.len() * row_len <= usize::MAX,
            n_data == data@.len(),
            i <= rows@.len(),
            out@.len() == i * row_len,
            forall|k: int|
                0 <= k < out@.len() ==> #[trigger] out@[k] == data@[rows@[k / row_len as int] * row_len + k
                    % row_len as int],
        decreases rows@.len() - i,
    {
        let row = rows[i];
        proof {
            assert((row + 1) * row_len == row * row_len + row_len) by (nonlinear_arith);
        }
        let base = row * row_len;
        let mut j: usize = 0;
        while j < row_len
            invariant
                forall|i: int| 0 <= i < rows@.len() ==> (#[trigger] rows@[i] + 1) * row_len <= data@.len(),
                i < rows@.len(),
                row == rows@[i as int],
                base == row * row_len,
                base + row_len <= data@.len(),
                n_data == data@.len(),
                j <= row_len,
                out@.len() == i * row_len + j,
                forall|k: int|
                    0 <= k < out@.len() ==> #[trigger] out@[k] == data@[rows@[k / row_len as int] * row_len + k
                        % row_len as int],
            decreases row_len - j,
        {
            proof {
                let k = (i * row_len + j) as int;
                vstd::arithmetic::div_mod::lemma_fundamental_div_mod_converse(
                    k,
                    row_len as int,
                    i as int,
                    j as int,
                );
            }
            out.push(data[base + j]);
            j += 1;
        }
        proof {
            assert((i + 1) * row_len == i * row_len + row_len) by (nonlinear_arith);
            assert(i * row_len + row_len <= rows@.len() * row_len) by (nonlinear_arith)
                requires
                    i < rows@.len(),
            ;
        }
        i += 1;
    }
    assert(out@ =~= gathered(data@, row_len as nat, rows@));
    out
}

// ── Activation image grids ──────────────────────────────────────────────────

/// Channels, height and width of a `[1, C, H, W]` or `[C, H, W]` activation tensor.
#[derive(Clone, Copy, Debug, PartialEq, Eq, Structural)]
pub struct ActivationShape {
    pub channels: usize,
    pub height: usize,
    pub width: usize,
}

/// The activation shape described by tensor dimensions, if they have one of
/// the accepted forms `[1, C, H, W]` or `[C, H, W]`.
pub open spec fn shape_of_dims(dims: Seq<usize>) -> Option<ActivationShape> {
    if dims.len() == 4 && dims[0] == 1 {
        Some(ActivationShape { channels: dims[1], height: dims[2], width: dims[3] })
    } else if dims.len() == 3 {
        Some(ActivationShape { channels: dims[0], height: dims[1], width: dims[2] })
    } else {
        None
    }
}

/// The activation shape described by tensor dimensions, or `None` for any
/// other form (which the image writers reject as unexpected).
pub fn activation_shape(dims: &[usize]) -> (r: Option<ActivationShape>)
    ensures
        r == shape_of_dims(dims@),
{
    if dims.len() == 4 && dims[0] == 1 {
        Some(ActivationShape { channels: dims[1], height: dims[2], width: dims[3] })
    } else if dims.len() == 3 {
        Some(ActivationShape { channels: dims[0], height: dims[1], width: dims[2] })
    } else {
        None
    }
}

/// `c` is the ceiling of the square root of `n`: the least `c` with `c² ≥ n`.
pub open spec fn is_ceil_sqrt(n: nat, c: nat) -> bool {
    c * c >= n && (c == 0 || (c - 1) * (c - 1) < n)
}

/// The ceiling of the square root of `n`.
pub open spec fn ceil_sqrt_of(n: nat) -> nat {
    choose|c: nat| is_ceil_sqrt(n, c)
}

proof fn lemma_ceil_sqrt_unique(n: nat, c1: nat, c2: nat)
    requires
        is_ceil_sqrt(n, c1),
        is_ceil_sqrt(n, c2),
    ensures
        c1 == c2,
{
    if c1 < c2 {
        assert(c1 * c1 <= (c2 - 1) * (c2 - 1)) by (nonlinear_arith)
            requires
                c1 <= c2 - 1,
        ;
    } else if c2 < c1 {
        assert(c2 * c2 <= (c1 - 1) * (c1 - 1)) by (nonlinear_arith)
            requires
                c2 <= c1 - 1,
        ;
    }
}

/// The ceiling of the square root of `n` (the number of grid columns).
pub fn ceil_sqrt(n: usize) -> (r: usize)
    ensures
        is_ceil_sqrt(n as nat, r as nat),
        r as nat == ceil_sqrt_of(n as nat),
{
    let mut c: usize = 0;
    let target = n as u128;
    assert(0 * 0 <= u128::MAX) by (nonlinear_arith);
    while (c as u128) * (c as u128) < target
        invariant
            target == n as u128,
            c <= n,
            c * c <= u128::MAX,
            c == 0 || (c - 1) * (c - 1) < n,
        decreases n - c,
    {
        proof {
            assert(c < n) by (nonlinear_arith)
                requires
                    c * c < n,
            ;
            assert((c + 1) * (c + 1) <= u128::MAX) by (nonlinear_arith)
                requires
                    c < n,
                    n <= 0xffff_ffff_ffff_ffff,
            ;
        }
        c = c + 1;
    }
    proof {
        assert(c * c >= n);
        assert(is_ceil_sqrt(n as nat, c as nat));
        lemma_ceil_sqrt_unique(n as nat, c as nat, ceil_sqrt_of(n as nat));
    }
    c
}

/// Geometry of a grid of activation channels: `cols × rows` cells of
/// `cell_width × cell_height` pixels separated and surrounded by `pad` pixels.
#[derive(Clone, Copy, Debug, PartialEq, Eq, Structural)]
pub struct GridLayout {
    pub channels: usize,
    pub cell_height: usize,
    pub cell_width: usize,
    pub pad: usize,
    pub cols: usize,
    pub rows: usize,
    pub width: usize,
    pub height: usize,
}

/// The grid for `channels` cells with `cols` columns, or `None` when there are
/// no channels or a dimension does not fit in a `usize`.
pub open spec fn grid_with(channels: nat, cell_height: nat, cell_width: nat, pad: nat, cols: nat) -> Option<GridLayout> {
    if channels == 0 || cols == 0 || channels + cols - 1 > usize::MAX || cols + 1 > usize::MAX {
        None
    } else {
        let rows = ((channels + cols - 1) as nat) / cols;
        let width = cols * cell_width + (cols + 1) * pad;
        let height = rows * cell_height + (rows + 1) * pad;
        if rows + 1 > usize::MAX || width > usize::MAX || height > usize::MAX {
            None
        } else {
            Some(
                GridLayout {
                    channels: channels as usize,
                    cell_height: cell_height as usize,
                    cell_width: cell_width as usize,
                    pad: pad as usize,
                    cols: cols as usize,
                    rows: rows as usize,
                    width: width as usize,
                    height: height as usize,
                },
            )
        }
    }
}

/// The grid of `channels` cells in a roughly square arrangement: as many
/// columns as the ceiling of the square root of the channel count.
pub open spec fn grid_for(channels: nat, cell_height: nat, cell_width: nat, pad: nat) -> Option<GridLayout> {
    grid_with(channels, cell_height, cell_width, pad, ceil_sqrt_of(channels))
}

impl GridLayout {
    /// The layout is the grid of its channel count and cell geometry.
    pub open spec fn valid(self) -> bool {
        grid_for(self.channels as nat, self.cell_height as nat, self.cell_width as nat, self.pad as nat) == Some(self)
    }

    /// Top-left pixel of the cell of channel `c`.
    pub open spec fn origin(self, c: nat) -> (nat, nat) {
        (
            (self.pad + (c % self.cols as nat) * (self.cell_width + self.pad)) as nat,
            (self.pad + (c / self.cols as nat) * (self.cell_height + self.pad)) as nat,
        )
    }

    /// Top-left pixel of the cell of channel `c`.
    pub fn cell_origin(&self, c: usize) -> (r: (usize, usize))
        requires
            self.valid(),
            c < self.channels,
        ensures
            r.0 as nat == self.origin(c as nat).0,
            r.1 as nat == self.origin(c as nat).1,
    {
        proof {
            lemma_cell_inside(*self, c as nat);
        }
        let col = c % self.cols;
        let row = c / self.cols;
        (self.pad + col * (self.cell_width + self.pad), self.pad + row * (self.cell_height + self.pad))
    }
}

/// Lays out `channels` activation maps of `cell_height × cell_width` pixels in
/// a grid with `pad` pixels between and around cells; `None` when there are
/// no channels or a dimension overflows.
pub fn grid_layout(channels: usize, cell_height: usize, cell_width: usize, pad: usize) -> (r: Option<GridLayout>)
    ensures
        r == grid_for(channels as nat, cell_height as nat, cell_width as nat, pad as nat),
{
    let cols = ceil_sqrt(channels);
    if channels == 0 || cols == 0 {
        return None;
    }
    let span = match channels.checked_add(cols - 1) {
        Some(v) => v,
        None => return None,
    };
    let cols1 = match cols.checked_add(1) {
        Some(v) => v,
        None => return None,
    };
    let rows = span / cols;
    let rows1 = match rows.checked_add(1) {
        Some(v) => v,
        None => return None,
    };
    proof {
        let w = cols as int * cell_width as int + cols1 as int * pad as int;
        let h = rows as int * cell_height as int + rows1 as int * pad as int;
        assert(cols as int * cell_width as int <= w && cols1 as int * pad as int <= w) by (nonlinear_arith)
            requires
                w == cols as int * cell_width as int + cols1 as int * pad as int,
                cols >= 0,
                cell_width >= 0,
                cols1 >= 0,
                pad >= 0,
        ;
        assert(rows as int * cell_height as int <= h && rows1 as int * pad as int <= h) by (nonlinear_arith)
            requires
                h == rows as int * cell_height as int + rows1 as int * pad as int,
                rows >= 0,
                cell_height >= 0,
                rows1 >= 0,
                pad >= 0,
        ;
    }
    let width = match cols.checked_mul(cell_width) {
        Some(a) => match cols1.checked_mul(pad) {
            Some(b) => match a.checked_add(b) {
                Some(v) => v,
                None => return None,
            },
            None => return None,
        },
        None => return None,
    };
    let height = match rows.checked_mul(cell_height) {
        Some(a) => match rows1.checked_mul(pad) {
            Some(b) => match a.checked_add(b) {
                Some(v) => v,
                None => return None,
            },
            None => return None,
        },
        None => return None,
    };
    Some(GridLayout { channels, cell_height, cell_width, pad, cols, rows, width, height })
}

/// Every number has a ceiling square root.
proof fn lemma_ceil_sqrt_exists(n: nat)
    ensures
        is_ceil_sqrt(n, ceil_sqrt_of(n)),
    decreases n,
{
    if n == 0 {
        assert(is_ceil_sqrt(0, 0));
    } else {
        lemma_ceil_sqrt_exists((n - 1) as nat);
        let c = ceil_sqrt_of((n - 1) as nat);
        if c * c >= n {
            assert(c != 0);
            assert(is_ceil_sqrt(n, c));
        } else {
            assert((c + 1) * (c + 1) >= n) by (nonlinear_arith)
                requires
                    c * c >= n - 1,
            ;
            assert(((c + 1) - 1) as nat == c);
            assert(is_ceil_sqrt(n, c + 1));
        }
    }
}

/// The grid is as square as whole columns allow and has no empty row: its
/// columns are the ceiling of the square root of the channel count, its rows
/// the fewest that hold every channel, and the image spans exactly the cells
/// and the padding around and between them.
pub proof fn lemma_grid_shape(channels: nat, cell_height: nat, cell_width: nat, pad: nat)
    ensures
        grid_for(channels, cell_height, cell_width, pad) matches Some(g) ==> {
            &&& g.channels == channels
            &&& g.cell_height == cell_height
            &&& g.cell_width == cell_width
            &&& g.pad == pad
            &&& is_ceil_sqrt(channels, g.cols as nat)
            &&& g.cols > 0
            &&& g.rows > 0
            &&& (g.rows - 1) * g.cols < channels
            &&& channels <= g.rows * g.cols
            &&& g.width == g.cols * cell_width + (g.cols + 1) * pad
            &&& g.height == g.rows * cell_height + (g.rows + 1) * pad
        },
{
    lemma_ceil_sqrt_exists(channels);
    let cols = ceil_sqrt_of(channels);
    if channels > 0 {
        assert(cols > 0);
        let rows = ((channels + cols - 1) as nat) / cols;
        assert((rows - 1) * cols < channels && channels <= rows * cols && rows > 0) by (nonlinear_arith)
            requires
                rows == ((channels + cols - 1) as nat) / cols,
                cols > 0,
                channels > 0,
        ;
        assert(cell_height <= rows * cell_height && pad <= (rows + 1) * pad && cell_width <= cols * cell_width)
            by (nonlinear_arith)
            requires
                rows > 0,
                cols > 0,
        ;
    }
}

proof fn lemma_cell_inside(g: GridLayout, c: nat)
    requires
        g.valid(),
        c < g.channels,
    ensures
        g.origin(c).0 + g.cell_width + g.pad <= g.width,
        g.origin(c).1 + g.cell_height + g.pad <= g.height,
        c % (g.cols as nat) < g.cols,
        c / (g.cols as nat) < g.rows,
{
    let cols = g.cols as nat;
    let n = g.channels as nat;
    let col = c % cols;
    let row = c / cols;
    assert(cols > 0);
    assert(col < cols) by (nonlinear_arith)
        requires
            col == c % cols,
            cols > 0,
    ;
    assert(row < g.rows) by (nonlinear_arith)
        requires
            row == c / cols,
            c < n,
            g.rows == ((n + cols - 1) as nat) / cols,
            cols > 0,
    ;
    let w = g.cell_width as nat;
    let h = g.cell_height as nat;
    let p = g.pad as nat;
    assert(p + col * (w + p) + w + p <= cols * w + (cols + 1) * p) by (nonlinear_arith)
        requires
            col < cols,
    ;
    assert(p + row * (h + p) + h + p <= g.rows * h + (g.rows + 1) * p) by (nonlinear_arith)
        requires
            row < g.rows,
    ;
}

/// Every channel's cell lies inside the image, and the cells of two
/// different channels do not overlap.
pub proof fn lemma_grid_cells_disjoint(g: GridLayout, a: nat, b: nat)
    requires
        g.valid(),
        a < g.channels,
        b < g.channels,
    ensures
        g.origin(a).0 + g.cell_width <= g.width,
        g.origin(a).1 + g.cell_height <= g.height,
        a != b ==> (g.origin(a).0 + g.cell_width <= g.origin(b).0 || g.origin(b).0 + g.cell_width
            <= g.origin(a).0 || g.origin(a).1 + g.cell_height <= g.origin(b).1 || g.origin(b).1
            + g.cell_height <= g.origin(a).1),
{
    lemma_cell_inside(g, a);
    lemma_cell_inside(g, b);
    let cols = g.cols as nat;
    if a != b {
        let w = g.cell_width as nat;
        let h = g.cell_height as nat;
        let p = g.pad as nat;
        if a % cols != b % cols {
            if a % cols < b % cols {
                let x = a % cols;
                let y = b % cols;
                assert(x * (w + p) + w + p <= y * (w + p)) by (nonlinear_arith)
                    requires
                        x < y,
                        w >= 0,
                        p >= 0,
                ;
            } else {
                let x = b % cols;
                let y = a % cols;
                assert(x * (w + p) + w + p <= y * (w + p)) by (nonlinear_arith)
                    requires
                        x < y,
                        w >= 0,
                        p >= 0,
                ;
            }
        } else {
            assert(a / cols != b / cols) by {
                vstd::arithmetic::div_mod::lemma_fundamental_div_mod(a as int, cols as int);
                vstd::arithmetic::div_mod::lemma_fundamental_div_mod(b as int, cols as int);
            }
            if a / cols < b / cols {
                let x = a / cols;
                let y = b / cols;
                assert(x * (h + p) + h + p <= y * (h + p)) by (nonlinear_arith)
                    requires
                        x < y,
                        h >= 0,
                        p >= 0,
                ;
            } else {
                let x = b / cols;
                let y = a / cols;
                assert(x * (h + p) + h + p <= y * (h + p)) by (nonlinear_arith)
                    requires
                        x < y,
                        h >= 0,
                        p >= 0,
                ;
            }
        }
    }
}

} // verus!
