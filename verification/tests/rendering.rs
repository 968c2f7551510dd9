use mandelbrot::bands::Band;
use mandelbrot::bands::plan_bands;
use mandelbrot::bands::rows_per_band;
use mandelbrot::geometry::Bounds;
use mandelbrot::render::render_band;
use mandelbrot::render::shade;

#[test]
fn shade_maps_escape_results_to_intensities() {
    assert_eq!(shade(None), 0);
    assert_eq!(shade(Some(0)), 255);
    assert_eq!(shade(Some(1)), 254);
    assert_eq!(shade(Some(200)), 55);
    assert_eq!(shade(Some(254)), 1);
}

#[test]
fn render_band_lays_pixels_out_row_major() {
    let bounds = Bounds { width: 3, height: 2 };
    let counts = vec![None, Some(0), Some(10), Some(254), None, Some(100)];
    let pixels = render_band(&bounds, &counts);
    assert_eq!(pixels, vec![0, 255, 245, 1, 0, 155]);
}

#[test]
fn point_inside_set_renders_black() {
    // The degenerate rectangle around the origin: its single pixel is the
    // point c = 0, which never diverges — z stays at 0 through every one of
    // the 255 iterations, so the pixel must be 0.
    let mut z = (0.0f64, 0.0f64);
    let c = (0.0f64, 0.0f64);
    let mut escaped: Option<u8> = None;
    for i in 0..255 {
        if z.0 * z.0 + z.1 * z.1 > 8.0 {
            escaped = Some(i as u8);
            break;
        }
        z = (z.0 * z.0 - z.1 * z.1 + c.0, 2.0 * z.0 * z.1 + c.1);
    }
    assert_eq!(escaped, None);
    let bounds = Bounds { width: 1, height: 1 };
    let pixels = render_band(&bounds, &vec![escaped]);
    assert_eq!(pixels, vec![0]);
}

#[test]
fn plan_bands_cuts_consecutive_disjoint_bands() {
    let bounds = Bounds { width: 5, height: 20 };
    assert_eq!(rows_per_band(20), 3);
    let bands = plan_bands(&bounds);
    assert_eq!(bands.len(), 7);
    let mut next_top: usize = 0;
    let mut total: usize = 0;
    for band in &bands {
        assert_eq!(band.top, next_top);
        assert!(band.height >= 1);
        assert!(band.height <= 3);
        next_top = band.top + band.height;
        total += band.height;
    }
    assert_eq!(total, 20);
    assert_eq!(bands[6], Band { top: 18, height: 2 });
}

#[test]
fn plan_bands_handles_small_and_exact_heights() {
    let one_row = plan_bands(&Bounds { width: 4, height: 1 });
    assert_eq!(one_row.len(), 1);
    assert_eq!(one_row[0], Band { top: 0, height: 1 });

    // Height an exact multiple of the band size: every band full, none empty.
    let exact = plan_bands(&Bounds { width: 4, height: 16 });
    assert_eq!(rows_per_band(16), 3);
    assert_eq!(exact.len(), 6);
    assert_eq!(exact[5], Band { top: 15, height: 1 });
    for band in &exact {
        assert!(band.height >= 1);
    }
}

#[test]
fn band_offsets_address_the_flat_buffer() {
    let bounds = Bounds { width: 7, height: 20 };
    let bands = plan_bands(&bounds);
    let mut expected_offset: usize = 0;
    for band in &bands {
        assert_eq!(band.offset(&bounds), expected_offset);
        expected_offset += band.pixel_count(&bounds);
    }
    assert_eq!(expected_offset, 7 * 20);
}

#[test]
fn banded_rendering_equals_whole_image_rendering() {
    let bounds = Bounds { width: 4, height: 10 };
    let n: usize = bounds.width * bounds.height;
    // Any deterministic spread of escape results will do.
    let counts: Vec<Option<u8>> = (0..n)
        .map(|i| if i % 7 == 0 { None } else { Some(((i * 13) % 255) as u8) })
        .collect();
    let whole = render_band(&bounds, &counts);

    let mut assembled: Vec<u8> = Vec::new();
    for band in &plan_bands(&bounds) {
        let offset = band.offset(&bounds);
        let len = band.pixel_count(&bounds);
        let band_bounds = Bounds { width: bounds.width, height: band.height };
        let band_counts: Vec<Option<u8>> = counts[offset..offset + len].to_vec();
        let band_pixels = render_band(&band_bounds, &band_counts);
        assembled.extend_from_slice(&band_pixels);
    }
    assert_eq!(assembled, whole);
}
