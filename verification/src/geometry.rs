//! The coordinate mapper: from a pixel of the raster grid to a point of the
//! complex plane.
//!
//! The mapping is the affine interpolation between the two plane corners.
//! It is computed here in exact rational arithmetic, so its statements are
//! exact: pixel `(0, 0)` maps to the upper-left corner, pixel
//! `(width, height)` to the lower-right one, and a band's own frame maps its
//! pixels to the very points the global frame gives them.

use vstd::prelude::*;

use crate::numbers::Ratio;

verus! {

/// Pixel dimensions of a raster grid.
#[derive(Clone, Copy, PartialEq, Eq, Structural, Debug)]
pub struct Bounds {
    pub width: usize,
    pub height: usize,
}

impl Bounds {
    /// Both dimensions are positive and the pixel count fits the machine.
    pub open spec fn wf(self) -> bool {
        &&& 0 < self.width
        &&& 0 < self.height
        &&& self.width * self.height <= usize::MAX
    }

    /// Builds bounds from parsed dimensions; `None` when a dimension is zero
    /// or the pixel count overflows the machine.
    pub fn new(width: usize, height: usize) -> (r: Option<Bounds>)
        ensures
            r matches Some(b) ==> b.width == width && b.height == height && b.wf(),
            r is None <==> (width == 0 || height == 0 || width * height > usize::MAX),
    {
        if width == 0 || height == 0 {
            None
        } else {
            match width.checked_mul(height) {
                Some(_) => Some(Bounds { width, height }),
                None => None,
            }
        }
    }

    /// Number of pixels of the grid.
    pub fn area(&self) -> (r: usize)
        requires
            self.wf(),
        ensures
            r == self.width * self.height,
    {
        self.width * self.height
    }
}

/// A point of the complex plane, both coordinates exact rationals.
#[derive(Clone, Copy, PartialEq, Eq, Structural, Debug)]
pub struct PlanePoint {
    pub re: Ratio,
    pub im: Ratio,
}

/// Numerator of the interpolation between two rationals `ul = uln/uld` and
/// `lr = lrn/lrd`, at step `p` of `n`, over the denominator
/// `affine_den(uld, lrd, n)`: the value `ul + (p/n) * (lr - ul)`.
///
/// Both coordinates of the mapper are this one form.  The real part walks
/// from the left edge to the right one as the column grows; the imaginary
/// part walks from the top edge down to the bottom one as the row grows,
/// which is again interpolation from the upper corner's value to the lower
/// corner's.
pub open spec fn affine_num(uln: int, uld: int, lrn: int, lrd: int, n: int, p: int) -> int {
    uln * lrd * n + p * (lrn * uld - uln * lrd)
}

/// Denominator of the interpolation.
pub open spec fn affine_den(uld: int, lrd: int, n: int) -> int {
    uld * lrd * n
}

/// The mapped coordinate holds the interpolated value: its numerator and
/// denominator are exactly the affine form's.
pub open spec fn is_affine_of(r: Ratio, ul: Ratio, lr: Ratio, n: int, p: int) -> bool {
    &&& r.num == affine_num(ul.num as int, ul.den as int, lr.num as int, lr.den as int, n, p)
    &&& r.den == affine_den(ul.den as int, lr.den as int, n)
}

/// Corner coordinates small enough for the mapper's exact arithmetic.
pub open spec fn corner_in_range(c: Ratio) -> bool {
    &&& c.wf()
    &&& c.den <= 1_000_000
    &&& -2_000_000_000_000_000_000 <= c.num <= 2_000_000_000_000_000_000
}

/// Grid dimensions small enough for the mapper's exact arithmetic.
pub open spec fn bounds_in_range(b: Bounds) -> bool {
    &&& b.wf()
    &&& b.width <= 1_000_000
    &&& b.height <= 1_000_000
}

/// One interpolated coordinate: `ul + (p/n) * (lr - ul)` as an exact
/// rational, `p` steps along an axis of `n` pixels.
fn interpolate(uln: i128, uld: i128, lrn: i128, lrd: i128, n: i128, p: i128) -> (r: Ratio)
    requires
        0 < uld <= 1_000_000,
        0 < lrd <= 1_000_000,
        -2_000_000_000_000_000_000 <= uln <= 2_000_000_000_000_000_000,
        -2_000_000_000_000_000_000 <= lrn <= 2_000_000_000_000_000_000,
        0 < n <= 1_000_000,
        0 <= p <= n,
    ensures
        r.num == affine_num(uln as int, uld as int, lrn as int, lrd as int, n as int, p as int),
        r.den == affine_den(uld as int, lrd as int, n as int),
        r.wf(),
{
    proof {
        assert(-2_000_000_000_000_000_000_000_000_000_000_000 <= uln * lrd * n
            <= 2_000_000_000_000_000_000_000_000_000_000_000) by (nonlinear_arith)
            requires
                0 < lrd <= 1_000_000,
                -2_000_000_000_000_000_000 <= uln <= 2_000_000_000_000_000_000,
                0 < n <= 1_000_000,
        ;
        assert(-2_000_000_000_000_000_000_000_000 <= lrn * uld <= 2_000_000_000_000_000_000_000_000)
            by (nonlinear_arith)
            requires
                0 < uld <= 1_000_000,
                -2_000_000_000_000_000_000 <= lrn <= 2_000_000_000_000_000_000,
        ;
        assert(-2_000_000_000_000_000_000_000_000 <= uln * lrd <= 2_000_000_000_000_000_000_000_000)
            by (nonlinear_arith)
            requires
                0 < lrd <= 1_000_000,
                -2_000_000_000_000_000_000 <= uln <= 2_000_000_000_000_000_000,
        ;
        assert(-5_000_000_000_000_000_000_000_000_000_000 <= p * (lrn * uld - uln * lrd)
            <= 5_000_000_000_000_000_000_000_000_000_000) by (nonlinear_arith)
            requires
                0 <= p <= 1_000_000,
                -4_000_000_000_000_000_000_000_000 <= lrn * uld - uln * lrd
                    <= 4_000_000_000_000_000_000_000_000,
        ;
        assert(0 < uld * lrd <= 1_000_000_000_000) by (nonlinear_arith)
            requires
                0 < uld <= 1_000_000,
                0 < lrd <= 1_000_000,
        ;
        assert(0 < uld * lrd * n <= 1_000_000_000_000_000_000) by (nonlinear_arith)
            requires
                0 < uld * lrd <= 1_000_000_000_000,
                0 < n <= 1_000_000,
        ;
    }
    let num: i128 = uln * lrd * n + p * (lrn * uld - uln * lrd);
    let den: i128 = uld * lrd * n;
    Ratio { num, den }
}

/// Maps a pixel of the grid to its point of the complex plane: the affine
/// interpolation that sends pixel `(0, 0)` to `upper_left` and pixel
/// `(width, height)` to `lower_right`.  Boundary pixel values (column equal
/// to the width, row equal to the height) are allowed; the orchestrator uses
/// them to derive a band's own corners.
pub fn pixel_to_point(
    bounds: &Bounds,
    pixel: (usize, usize),
    upper_left: &PlanePoint,
    lower_right: &PlanePoint,
) -> (r: PlanePoint)
    requires
        bounds_in_range(*bounds),
        pixel.0 <= bounds.width,
        pixel.1 <= bounds.height,
        corner_in_range(upper_left.re),
        corner_in_range(upper_left.im),
        corner_in_range(lower_right.re),
        corner_in_range(lower_right.im),
    ensures
        is_affine_of(r.re, upper_left.re, lower_right.re, bounds.width as int, pixel.0 as int),
        is_affine_of(r.im, upper_left.im, lower_right.im, bounds.height as int, pixel.1 as int),
        r.re.wf(),
        r.im.wf(),
        pixel.0 == 0 ==> r.re.same_value(upper_left.re),
        pixel.0 == bounds.width ==> r.re.same_value(lower_right.re),
        pixel.1 == 0 ==> r.im.same_value(upper_left.im),
        pixel.1 == bounds.height ==> r.im.same_value(lower_right.im),
{
    let re = interpolate(
        upper_left.re.num,
        upper_left.re.den,
        lower_right.re.num,
        lower_right.re.den,
        bounds.width as i128,
        pixel.0 as i128,
    );
    let im = interpolate(
        upper_left.im.num,
        upper_left.im.den,
        lower_right.im.num,
        lower_right.im.den,
        bounds.height as i128,
        pixel.1 as i128,
    );
    proof {
        lemma_map_corners(
            upper_left.re.num as int,
            upper_left.re.den as int,
            lower_right.re.num as int,
            lower_right.re.den as int,
            bounds.width as int,
        );
        lemma_map_corners(
            upper_left.im.num as int,
            upper_left.im.den as int,
            lower_right.im.num as int,
            lower_right.im.den as int,
            bounds.height as int,
        );
    }
    PlanePoint { re, im }
}

/// Law: the interpolation meets the corners exactly.  At step `0` the
/// affine form has the upper corner's value, at step `n` the lower corner's
/// — stated by cross-multiplication, which is value equality of the
/// rationals whenever the denominators are positive.
pub proof fn lemma_map_corners(uln: int, uld: int, lrn: int, lrd: int, n: int)
    ensures
        affine_num(uln, uld, lrn, lrd, n, 0) * uld == uln * affine_den(uld, lrd, n),
        affine_num(uln, uld, lrn, lrd, n, n) * lrd == lrn * affine_den(uld, lrd, n),
{
    assert((uln * lrd * n + 0 * (lrn * uld - uln * lrd)) * uld == uln * (uld * lrd * n))
        by (nonlinear_arith);
    assert((uln * lrd * n + n * (lrn * uld - uln * lrd)) * lrd == lrn * (uld * lrd * n))
        by (nonlinear_arith);
}

/// Law: a band maps its own pixels to exactly the points the global frame
/// maps them to.  The band's two corners are the global frame's images of
/// steps `t` and `t + h`; interpolating between those corners over the
/// band's `h` steps, at step `q`, meets the global interpolation at step
/// `t + q` — again by cross-multiplication, value equality whenever the
/// denominators are positive.  Splitting the image into bands therefore
/// cannot move any pixel's plane point.
pub proof fn lemma_band_frame_agrees(
    uln: int,
    uld: int,
    lrn: int,
    lrd: int,
    n: int,
    t: int,
    h: int,
    q: int,
)
    ensures
        ({
            let gden = affine_den(uld, lrd, n);
            let band_ul = affine_num(uln, uld, lrn, lrd, n, t);
            let band_lr = affine_num(uln, uld, lrn, lrd, n, t + h);
            affine_num(band_ul, gden, band_lr, gden, h, q) * gden == affine_num(
                uln,
                uld,
                lrn,
                lrd,
                n,
                t + q,
            ) * affine_den(gden, gden, h)
        }),
{
    let d = lrn * uld - uln * lrd;
    let gden = affine_den(uld, lrd, n);
    let band_ul = affine_num(uln, uld, lrn, lrd, n, t);
    let band_lr = affine_num(uln, uld, lrn, lrd, n, t + h);
    let global_q = affine_num(uln, uld, lrn, lrd, n, t + q);
    assert(band_lr - band_ul == h * d) by (nonlinear_arith)
        requires
            band_ul == uln * lrd * n + t * d,
            band_lr == uln * lrd * n + (t + h) * d,
    ;
    assert(band_ul * h + q * (band_lr - band_ul) == h * global_q) by (nonlinear_arith)
        requires
            band_lr - band_ul == h * d,
            band_ul == uln * lrd * n + t * d,
            global_q == uln * lrd * n + (t + q) * d,
    ;
    assert(affine_num(band_ul, gden, band_lr, gden, h, q) == gden * (band_ul * h + q * (band_lr
        - band_ul))) by (nonlinear_arith)
        requires
            affine_num(band_ul, gden, band_lr, gden, h, q) == band_ul * gden * h + q * (band_lr
                * gden - band_ul * gden),
    ;
    assert(gden * (h * global_q) * gden == global_q * (gden * gden * h)) by (nonlinear_arith);
    assert(affine_den(gden, gden, h) == gden * gden * h);
}

} // verus!
