use mandelbrot::geometry::Bounds;
use mandelbrot::geometry::PlanePoint;
use mandelbrot::geometry::pixel_to_point;
use mandelbrot::numbers::Ratio;
use mandelbrot::parse::parse_complex;

/// The floating-point value an exact rational stands for.
fn ratio_to_f64(r: &Ratio) -> f64 {
    r.num as f64 / r.den as f64
}

/// Value equality of two exact rationals, by cross-multiplication.
fn same_value(a: &Ratio, b: &Ratio) -> bool {
    a.num * b.den == b.num * a.den
}

fn corners(ul: &str, lr: &str) -> (PlanePoint, PlanePoint) {
    let (ul_re, ul_im) = parse_complex(ul).unwrap();
    let (lr_re, lr_im) = parse_complex(lr).unwrap();
    (
        PlanePoint { re: ul_re.to_ratio(), im: ul_im.to_ratio() },
        PlanePoint { re: lr_re.to_ratio(), im: lr_im.to_ratio() },
    )
}

#[test]
fn test_pixel_to_point() {
    let bounds = Bounds { width: 100, height: 200 };
    let (ul, lr) = corners("-1.0,1.0", "1.0,-1.0");
    let p = pixel_to_point(&bounds, (25, 75), &ul, &lr);
    assert_eq!(ratio_to_f64(&p.re), -0.5);
    assert_eq!(ratio_to_f64(&p.im), 0.25);
    assert_eq!(p.re, Ratio { num: -5000, den: 10000 });
    assert_eq!(p.im, Ratio { num: 5000, den: 20000 });
}

#[test]
fn corners_map_to_themselves() {
    let bounds = Bounds { width: 100, height: 200 };
    let (ul, lr) = corners("-1.0,1.0", "1.0,-1.0");
    let at_origin = pixel_to_point(&bounds, (0, 0), &ul, &lr);
    assert!(same_value(&at_origin.re, &ul.re));
    assert!(same_value(&at_origin.im, &ul.im));
    let at_far_corner = pixel_to_point(&bounds, (100, 200), &ul, &lr);
    assert!(same_value(&at_far_corner.re, &lr.re));
    assert!(same_value(&at_far_corner.im, &lr.im));
}

#[test]
fn band_frame_maps_like_global_frame() {
    let bounds = Bounds { width: 100, height: 200 };
    let (ul, lr) = corners("-1.25,0.75", "0.5,-1.5");
    // A band of 26 rows starting at row 52, its corners mapped with the
    // global frame, exactly as the orchestrator derives them.
    let top: usize = 52;
    let height: usize = 26;
    let band_ul = pixel_to_point(&bounds, (0, top), &ul, &lr);
    let band_lr = pixel_to_point(&bounds, (bounds.width, top + height), &ul, &lr);
    let band_bounds = Bounds { width: bounds.width, height };
    for &(col, row) in &[(0, 0), (37, 5), (99, 25), (100, 26), (50, 13)] {
        let local = pixel_to_point(&band_bounds, (col, row), &band_ul, &band_lr);
        let global = pixel_to_point(&bounds, (col, top + row), &ul, &lr);
        assert!(same_value(&local.re, &global.re));
        assert!(same_value(&local.im, &global.im));
    }
}

#[test]
fn degenerate_rectangle_maps_to_its_point() {
    let bounds = Bounds { width: 1, height: 1 };
    let (ul, lr) = corners("0,0", "0,0");
    let p = pixel_to_point(&bounds, (0, 0), &ul, &lr);
    assert_eq!(ratio_to_f64(&p.re), 0.0);
    assert_eq!(ratio_to_f64(&p.im), 0.0);
}
