//! Partition of the image into horizontal bands, one per worker.
//!
//! The orchestrator cuts the pixel rows into consecutive bands of a fixed
//! row count (the last band takes whatever remains), hands each band to one
//! worker, and joins them all.  The partition is where the concurrency is
//! made safe: the bands are proved disjoint and proved to cover every row
//! exactly once, so no two workers ever touch the same pixel.

use vstd::prelude::*;

use vstd::arithmetic::div_mod::lemma_fundamental_div_mod;
use vstd::arithmetic::div_mod::lemma_mod_bound;
use vstd::arithmetic::mul::lemma_mul_inequality;

use crate::geometry::Bounds;

verus! {

/// Fixed number of workers the image is cut for.
pub const WORKERS: usize = 8;

/// One horizontal band: the rows `top .. top + height` of the image.
#[derive(Clone, Copy, PartialEq, Eq, Structural, Debug)]
pub struct Band {
    pub top: usize,
    pub height: usize,
}

/// The band layout over an image of `height` rows, cut every `rpb` rows:
/// band `i` starts at row `i * rpb`, every band but the last holds exactly
/// `rpb` rows, no band is empty, and the last band ends exactly at the last
/// image row.
pub open spec fn band_partition(bands: Seq<Band>, height: int, rpb: int) -> bool {
    &&& bands.len() >= 1
    &&& forall|i: int| 0 <= i < bands.len() ==> (#[trigger] bands[i]).top == i * rpb
    &&& forall|i: int| 0 <= i < bands.len() ==> 1 <= (#[trigger] bands[i]).height <= rpb
    &&& forall|i: int| 0 <= i < bands.len() - 1 ==> (#[trigger] bands[i]).height == rpb
    &&& bands[bands.len() - 1].top + bands[bands.len() - 1].height == height
}

/// The band a row falls in, under a layout cut every `rpb` rows.
pub open spec fn band_index(row: int, rpb: int) -> int {
    row / rpb
}

/// Rows given to each band: an eighth of the image, rounded up by one, so
/// that the partition never drops rows.
pub fn rows_per_band(height: usize) -> (r: usize)
    requires
        height >= 1,
    ensures
        r == height as int / WORKERS as int + 1,
        r >= 1,
{
    height / WORKERS + 1
}

/// Cuts the image into its bands: consecutive strips of `rows_per_band`
/// rows, the last one shorter when the image height is no multiple of it.
pub fn plan_bands(bounds: &Bounds) -> (bands: Vec<Band>)
    requires
        bounds.wf(),
    ensures
        band_partition(
            bands@,
            bounds.height as int,
            bounds.height as int / WORKERS as int + 1,
        ),
{
    let rpb = rows_per_band(bounds.height);
    let mut bands: Vec<Band> = Vec::new();
    let mut top: usize = 0;
    while top < bounds.height
        invariant
            bounds.wf(),
            rpb == bounds.height as int / WORKERS as int + 1,
            rpb >= 1,
            top <= bounds.height,
            forall|i: int| 0 <= i < bands@.len() ==> (#[trigger] bands@[i]).top == i * rpb,
            forall|i: int| 0 <= i < bands@.len() ==> 1 <= (#[trigger] bands@[i]).height <= rpb,
            forall|i: int| 0 <= i < bands@.len() - 1 ==> (#[trigger] bands@[i]).height == rpb,
            bands@.len() == 0 ==> top == 0,
            bands@.len() >= 1 ==> top == bands@[bands@.len() - 1].top + bands@[bands@.len()
                - 1].height,
            top < bounds.height ==> top == bands@.len() * rpb,
        decreases bounds.height - top,
    {
        let remaining = bounds.height - top;
        let h = if remaining < rpb {
            remaining
        } else {
            rpb
        };
        proof {
            assert((bands@.len() + 1) * rpb == bands@.len() * rpb + rpb) by (nonlinear_arith);
            if bands@.len() >= 1 {
                assert(bands@.len() * rpb == (bands@.len() - 1) * rpb + rpb) by (nonlinear_arith);
            }
        }
        bands.push(Band { top, height: h });
        top = top + h;
    }
    bands
}

/// Law: the bands are consecutive, start at the first row, and every row of
/// the image lies in exactly one band — the band at the row's quotient by
/// the rows-per-band count.  Disjointness and full coverage of the parallel
/// write regions follow.
pub proof fn lemma_partition_disjoint_cover(bands: Seq<Band>, height: int, rpb: int)
    requires
        band_partition(bands, height, rpb),
        rpb >= 1,
        height >= 1,
    ensures
        bands[0].top == 0,
        forall|i: int| 0 <= i < bands.len() - 1 ==> (#[trigger] bands[i]).top + bands[i].height
            == bands[i + 1].top,
        forall|r: int|
            #![trigger band_index(r, rpb)]
            0 <= r < height ==> 0 <= band_index(r, rpb) < bands.len() && bands[band_index(
                r,
                rpb,
            )].top <= r < bands[band_index(r, rpb)].top + bands[band_index(r, rpb)].height,
        forall|i: int, j: int|
            0 <= i < j < bands.len() ==> (#[trigger] bands[i]).top + bands[i].height
                <= (#[trigger] bands[j]).top,
{
    let n = bands.len() as int;
    assert(bands[0].top == 0 * rpb);
    assert forall|i: int| 0 <= i < n - 1 implies (#[trigger] bands[i]).top + bands[i].height
        == bands[i + 1].top by {
        assert((i + 1) * rpb == i * rpb + rpb) by (nonlinear_arith);
    }
    assert(height <= n * rpb) by {
        assert(bands[n - 1].top + bands[n - 1].height <= (n - 1) * rpb + rpb);
        assert((n - 1) * rpb + rpb == n * rpb) by (nonlinear_arith);
    }
    assert forall|r: int| #![trigger band_index(r, rpb)] 0 <= r < height implies 0 <= band_index(
        r,
        rpb,
    ) < bands.len() && bands[band_index(r, rpb)].top <= r < bands[band_index(r, rpb)].top
        + bands[band_index(r, rpb)].height by {
        let i = band_index(r, rpb);
        lemma_fundamental_div_mod(r, rpb);
        lemma_mod_bound(r, rpb);
        assert(i * rpb <= r < i * rpb + rpb);
        assert(i >= 0) by (nonlinear_arith)
            requires
                r >= 0,
                rpb >= 1,
                i * rpb <= r < i * rpb + rpb,
        ;
        assert(i < n) by {
            if i >= n {
                lemma_mul_inequality(n, i, rpb);
                assert(n * rpb <= i * rpb);
                assert(r >= n * rpb);
                assert(r >= height);
            }
        }
        assert(bands[i].top == i * rpb);
        if i == n - 1 {
            assert(bands[i].top + bands[i].height == height);
        } else {
            assert(bands[i].height == rpb);
        }
    }
    assert forall|i: int, j: int| 0 <= i < j < n implies (#[trigger] bands[i]).top
        + bands[i].height <= (#[trigger] bands[j]).top by {
        assert((i + 1) * rpb == i * rpb + rpb) by (nonlinear_arith);
        lemma_mul_inequality(i + 1, j, rpb);
    }
}

/// Law: in the flat row-major buffer, the bands' pixel ranges — band `i`
/// holds the indices `top * width .. (top + height) * width` — begin at
/// index zero, are pairwise disjoint, and end exactly at the buffer's end:
/// every pixel belongs to exactly one worker's range.
pub proof fn lemma_band_buffers_disjoint_cover(bands: Seq<Band>, height: int, rpb: int, width: int)
    requires
        band_partition(bands, height, rpb),
        rpb >= 1,
        height >= 1,
        width >= 0,
    ensures
        bands[0].top * width == 0,
        forall|i: int, j: int|
            0 <= i < j < bands.len() ==> (#[trigger] bands[i]).top * width + bands[i].height
                * width <= (#[trigger] bands[j]).top * width,
        bands[bands.len() - 1].top * width + bands[bands.len() - 1].height * width == height
            * width,
{
    lemma_partition_disjoint_cover(bands, height, rpb);
    assert(bands[0].top == 0);
    assert forall|i: int, j: int| 0 <= i < j < bands.len() implies (#[trigger] bands[i]).top
        * width + bands[i].height * width <= (#[trigger] bands[j]).top * width by {
        assert(bands[i].top + bands[i].height <= bands[j].top);
        assert(bands[i].top * width + bands[i].height * width <= bands[j].top * width)
            by (nonlinear_arith)
            requires
                bands[i].top + bands[i].height <= bands[j].top,
                width >= 0,
        ;
    }
    let last = bands.len() - 1;
    assert(bands[last].top * width + bands[last].height * width == height * width)
        by (nonlinear_arith)
        requires
            bands[last].top + bands[last].height == height,
    ;
}

impl Band {
    /// Index of the band's first pixel in the flat row-major buffer.
    pub fn offset(&self, bounds: &Bounds) -> (r: usize)
        requires
            bounds.wf(),
            self.top <= bounds.height,
        ensures
            r == self.top * bounds.width,
    {
        proof {
            lemma_mul_inequality(self.top as int, bounds.height as int, bounds.width as int);
        }
        self.top * bounds.width
    }

    /// Number of pixels of the band in the flat row-major buffer.
    pub fn pixel_count(&self, bounds: &Bounds) -> (r: usize)
        requires
            bounds.wf(),
            self.height <= bounds.height,
        ensures
            r == self.height * bounds.width,
    {
        proof {
            lemma_mul_inequality(self.height as int, bounds.height as int, bounds.width as int);
        }
        self.height * bounds.width
    }
}

} // verus!
