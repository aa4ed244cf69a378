use vstd::arithmetic::div_mod::{
    lemma_div_decreases,
    lemma_fundamental_div_mod,
    lemma_fundamental_div_mod_converse,
    lemma_mod_pos_bound,
};
use vstd::prelude::*;

verus! {

/// Dimensions of a pixel raster.
#[derive(Clone, Copy, Debug, PartialEq, Eq)]
pub struct PixelBounds {
    pub width: usize,
    pub height: usize,
}

impl PixelBounds {
    /// Both dimensions are positive and the raster's byte count fits in memory.
    pub open spec fn wf(self) -> bool {
        &&& self.width > 0
        &&& self.height > 0
        &&& self.width * self.height <= usize::MAX
    }

    /// Number of bytes of a one-byte-per-pixel buffer for these bounds.
    pub open spec fn byte_len(self) -> int {
        self.width * self.height
    }
}

/// A run of whole rows of a pixel buffer: rows `top .. top + rows`, which are
/// the bytes `start .. start + len`.
#[derive(Clone, Copy, Debug, PartialEq, Eq)]
pub struct Band {
    pub top: usize,
    pub rows: usize,
    pub start: usize,
    pub len: usize,
}

impl Band {
    /// The band covers byte `i` of the buffer.
    pub open spec fn holds(self, i: int) -> bool {
        self.start <= i < self.start + self.len
    }
}

/// `a / b` rounded up.
pub open spec fn ceil_div(a: int, b: int) -> int {
    if a % b == 0 {
        a / b
    } else {
        a / b + 1
    }
}

/// Rows in every band but possibly the last, for `workers` workers.
pub open spec fn band_height(height: int, workers: int) -> int {
    ceil_div(height, workers)
}

/// Number of bands that a raster of `height` rows is cut into.
pub open spec fn band_count(height: int, workers: int) -> int {
    ceil_div(height, band_height(height, workers))
}

/// Band `k` of the raster: it starts `k` full bands down and ends at the
/// band height or at the bottom of the raster, whichever comes first.
pub open spec fn band_at(bounds: PixelBounds, workers: int, k: int) -> Band {
    let step = band_height(bounds.height as int, workers);
    let top = k * step;
    let rows = if step <= bounds.height - top {
        step
    } else {
        bounds.height - top
    };
    Band {
        top: top as usize,
        rows: rows as usize,
        start: (top * bounds.width) as usize,
        len: (rows * bounds.width) as usize,
    }
}

proof fn lemma_div_mod_parts(a: int, b: int)
    requires
        a >= 0,
        b > 0,
    ensures
        a == b * (a / b) + a % b,
        0 <= a % b < b,
        0 <= a / b,
{
    lemma_fundamental_div_mod(a, b);
    lemma_mod_pos_bound(a, b);
    assert(0 <= a / b) by (nonlinear_arith)
        requires
            a == b * (a / b) + a % b,
            0 <= a % b < b,
            a >= 0,
    ;
}

/// The indices below `ceil_div(a, b)` are those whose multiple of `b` is below `a`.
proof fn lemma_ceil_div(a: int, b: int, k: int)
    requires
        a > 0,
        b > 0,
        k >= 0,
    ensures
        k < ceil_div(a, b) <==> k * b < a,
        1 <= ceil_div(a, b) <= a,
{
    lemma_div_mod_parts(a, b);
    let q = a / b;
    let r = a % b;
    assert(k < ceil_div(a, b) <==> k * b < a) by (nonlinear_arith)
        requires
            a == b * q + r,
            0 <= r < b,
            ceil_div(a, b) == if r == 0 { q } else { q + 1 },
            k >= 0,
    ;
    assert(1 <= ceil_div(a, b) <= a) by (nonlinear_arith)
        requires
            a == b * q + r,
            0 <= r < b,
            q >= 0,
            a > 0,
            ceil_div(a, b) == if r == 0 { q } else { q + 1 },
    ;
}

/// Byte `i` lies in rows `a ..` exactly when its row is at least `a`, and
/// before row `a` exactly when its row is below `a`.
proof fn lemma_row_of_byte(i: int, w: int, a: int)
    requires
        i >= 0,
        w > 0,
    ensures
        a * w <= i <==> a <= i / w,
        i < a * w <==> i / w < a,
{
    lemma_div_mod_parts(i, w);
    let q = i / w;
    let r = i % w;
    assert(a * w <= i <==> a <= q) by (nonlinear_arith)
        requires
            i == w * q + r,
            0 <= r < w,
    ;
}

/// `a / b` rounded up: the number of `b`-sized pieces that hold `a` items.
fn div_ceil(a: usize, b: usize) -> (r: usize)
    requires
        b > 0,
    ensures
        r == ceil_div(a as int, b as int),
{
    if a % b == 0 {
        a / b
    } else {
        proof {
            lemma_div_mod_parts(a as int, b as int);
            if a > 0 && b > 1 {
                lemma_div_decreases(a as int, b as int);
            }
        }
        a / b + 1
    }
}

/// Rows per band when a raster of `height` rows is shared by `workers`
/// workers: the height divided by the worker count, rounded up.
pub fn rows_per_band(height: usize, workers: usize) -> (r: usize)
    requires
        workers > 0,
    ensures
        r == band_height(height as int, workers as int),
{
    div_ceil(height, workers)
}

/// Cuts a raster into consecutive bands of whole rows, one per worker at
/// most, each `rows_per_band` rows high but the last, which may be lower.
pub fn band_layout(bounds: PixelBounds, workers: usize) -> (bands: Vec<Band>)
    requires
        bounds.wf(),
        workers > 0,
    ensures
        bands@.len() == band_count(bounds.height as int, workers as int),
        bands@.len() <= workers,
        forall|k: int| 0 <= k < bands@.len() ==> #[trigger] bands@[k] == band_at(bounds, workers as int, k),
{
    let step = rows_per_band(bounds.height, workers);
    proof {
        lemma_ceil_div(bounds.height as int, workers as int, 0);
        lemma_ceil_div(bounds.height as int, workers as int, step as int);
        lemma_ceil_div(bounds.height as int, step as int, workers as int);
        assert(step * workers == workers * step) by (nonlinear_arith);
    }
    let count = div_ceil(bounds.height, step);
    let mut bands: Vec<Band> = Vec::new();
    let mut k: usize = 0;
    while k < count
        invariant
            bounds.wf(),
            workers > 0,
            step == band_height(bounds.height as int, workers as int),
            1 <= step <= bounds.height,
            count == band_count(bounds.height as int, workers as int),
            k <= count,
            bands@.len() == k,
            forall|j: int| 0 <= j < k ==> #[trigger] bands@[j] == band_at(bounds, workers as int, j),
        decreases count - k,
    {
        proof {
            lemma_ceil_div(bounds.height as int, step as int, k as int);
            assert(k * step < bounds.height);
        }
        let top = k * step;
        let rows = if step <= bounds.height - top {
            step
        } else {
            bounds.height - top
        };
        proof {
            let (w, h) = (bounds.width as int, bounds.height as int);
            assert(top * w <= h * w && (top + rows) * w <= h * w) by (nonlinear_arith)
                requires
                    top < h,
                    top + rows <= h,
                    w > 0,
            ;
            assert(rows * w <= (top + rows) * w) by (nonlinear_arith)
                requires
                    top >= 0,
                    w > 0,
            ;
        }
        let band = Band { top, rows, start: top * bounds.width, len: rows * bounds.width };
        bands.push(band);
        k = k + 1;
    }
    bands
}

/// The bands tile the raster's rows in order: the first starts at the top,
/// each starts where the one before it ends, none is empty, and the last
/// ends at the bottom, so their row counts add up to the height.
pub proof fn lemma_bands_tile_rows(bounds: PixelBounds, workers: int)
    requires
        bounds.wf(),
        workers > 0,
    ensures
        band_at(bounds, workers, 0).top == 0,
        forall|k: int|
            0 <= k < band_count(bounds.height as int, workers) ==> #[trigger] band_at(
                bounds,
                workers,
                k,
            ).rows > 0,
        forall|k: int|
            0 <= k < band_count(bounds.height as int, workers) - 1 ==> #[trigger] band_at(
                bounds,
                workers,
                k + 1,
            ).top == band_at(bounds, workers, k).top + band_at(bounds, workers, k).rows,
        ({
            let last = band_at(bounds, workers, band_count(bounds.height as int, workers) - 1);
            last.top + last.rows == bounds.height
        }),
{
    let (w, h) = (bounds.width as int, bounds.height as int);
    let step = band_height(h, workers);
    let n = band_count(h, workers);
    lemma_ceil_div(h, workers, 0);
    lemma_ceil_div(h, step, 0);
    assert forall|k: int| 0 <= k < n implies #[trigger] band_at(bounds, workers, k).rows > 0 by {
        lemma_ceil_div(h, step, k);
        assert(k * step * w <= h * w) by (nonlinear_arith)
            requires
                k * step < h,
                w > 0,
        ;
        assert(step * w <= h * w) by (nonlinear_arith)
            requires
                step <= h,
                w > 0,
        ;
    }
    assert forall|k: int| 0 <= k < n - 1 implies #[trigger] band_at(bounds, workers, k + 1).top
        == band_at(bounds, workers, k).top + band_at(bounds, workers, k).rows by {
        lemma_ceil_div(h, step, k + 1);
        assert((k + 1) * step == k * step + step) by (nonlinear_arith);
        assert((k + 1) * step * w <= h * w) by (nonlinear_arith)
            requires
                (k + 1) * step < h,
                w > 0,
        ;
    }
    lemma_ceil_div(h, step, n - 1);
    lemma_ceil_div(h, step, n);
    assert(n * step == (n - 1) * step + step) by (nonlinear_arith);
    assert((n - 1) * step * w <= h * w) by (nonlinear_arith)
        requires
            (n - 1) * step < h,
            w > 0,
    ;
}

/// Every byte of the buffer lies in exactly one band, whatever the worker
/// count: the band numbered by the byte's row divided by the band height.
pub proof fn lemma_byte_in_exactly_one_band(bounds: PixelBounds, workers: int, i: int) -> (k: int)
    requires
        bounds.wf(),
        workers > 0,
        0 <= i < bounds.byte_len(),
    ensures
        0 <= k < band_count(bounds.height as int, workers),
        band_at(bounds, workers, k).holds(i),
        forall|j: int|
            0 <= j < band_count(bounds.height as int, workers) && j != k ==> !#[trigger] band_at(
                bounds,
                workers,
                j,
            ).holds(i),
{
    let (w, h) = (bounds.width as int, bounds.height as int);
    let step = band_height(h, workers);
    lemma_ceil_div(h, workers, 0);
    lemma_row_of_byte(i, w, h);
    let row = i / w;
    lemma_div_mod_parts(row, step);
    let k = row / step;
    assert(k * step <= row) by (nonlinear_arith)
        requires
            row == step * k + row % step,
            row % step >= 0,
    ;
    lemma_ceil_div(h, step, k);
    assert forall|j: int| 0 <= j < band_count(h, workers) implies (#[trigger] band_at(
        bounds,
        workers,
        j,
    ).holds(i) <==> j == k) by {
        lemma_ceil_div(h, step, j);
        let top = j * step;
        let rows = if step <= h - top {
            step
        } else {
            h - top
        };
        assert(top * w <= h * w && (top + rows) * w <= h * w) by (nonlinear_arith)
            requires
                top < h,
                top + rows <= h,
                w > 0,
        ;
        assert(rows * w + top * w == (top + rows) * w) by (nonlinear_arith);
        lemma_row_of_byte(i, w, top);
        lemma_row_of_byte(i, w, top + rows);
        if top <= row < top + rows {
            lemma_fundamental_div_mod_converse(row, step, j, row - top);
        }
        if j == k {
            assert(row < top + rows);
        }
    }
    k
}

/// Byte `o` of a band is the pixel at column `o % width` and row
/// `o / width` of the band, and that pixel is the raster's pixel of the same
/// byte: its column, and its row counted from the top of the raster. So
/// each byte stands for the same pixel whatever the worker count.
pub proof fn lemma_band_pixel_is_raster_pixel(bounds: PixelBounds, workers: int, k: int, o: int)
    requires
        bounds.wf(),
        workers > 0,
        0 <= k < band_count(bounds.height as int, workers),
        0 <= o < band_at(bounds, workers, k).len,
    ensures
        ({
            let band = band_at(bounds, workers, k);
            let i = band.start + o;
            &&& o % (bounds.width as int) == i % (bounds.width as int)
            &&& band.top + o / (bounds.width as int) == i / (bounds.width as int)
        }),
{
    let (w, h) = (bounds.width as int, bounds.height as int);
    let step = band_height(h, workers);
    lemma_ceil_div(h, workers, 0);
    lemma_ceil_div(h, step, k);
    let top = k * step;
    assert(top * w <= h * w) by (nonlinear_arith)
        requires
            top < h,
            w > 0,
    ;
    lemma_div_mod_parts(o, w);
    let q = o / w;
    let r = o % w;
    assert(top * w + o == (top + q) * w + r) by (nonlinear_arith)
        requires
            o == w * q + r,
    ;
    lemma_fundamental_div_mod_converse(top * w + o, w, top + q, r);
}

} // verus!
