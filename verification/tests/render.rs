use mandelbrot::raster::{partition_bands, rows_per_band, Band, Bounds};
use mandelbrot::shade::{band_buffer_matches, intensity, render_band, render_banded, zero_buffer};
use num::Complex;

fn pixel_to_point(
    bounds: (usize, usize),
    pixel: (usize, usize),
    upper_left: Complex<f64>,
    lower_right: Complex<f64>,
) -> Complex<f64> {
    let (width, height) = (
        lower_right.re - upper_left.re,
        upper_left.im - lower_right.im,
    );
    Complex {
        re: upper_left.re + pixel.0 as f64 * width / bounds.0 as f64,
        im: upper_left.im - pixel.1 as f64 * height / bounds.1 as f64,
    }
}

fn escape_time(c: Complex<f64>, limit: usize) -> Option<usize> {
    let mut z = Complex { re: 0.0, im: 0.0 };
    for i in 0..limit {
        if z.norm_sqr() > 4.0 {
            return Some(i);
        }
        z = z * z + c;
    }
    None
}

fn escapes_for(
    bounds: (usize, usize),
    upper_left: Complex<f64>,
    lower_right: Complex<f64>,
) -> Vec<Option<usize>> {
    let mut escapes = Vec::with_capacity(bounds.0 * bounds.1);
    for row in 0..bounds.1 {
        for col in 0..bounds.0 {
            let point = pixel_to_point(bounds, (col, row), upper_left, lower_right);
            escapes.push(escape_time(point, 255));
        }
    }
    escapes
}

fn render_whole(
    bounds: (usize, usize),
    upper_left: Complex<f64>,
    lower_right: Complex<f64>,
) -> Vec<u8> {
    let escapes = escapes_for(bounds, upper_left, lower_right);
    let mut pixels = vec![0u8; bounds.0 * bounds.1];
    render_band(
        &mut pixels,
        Bounds {
            width: bounds.0,
            height: bounds.1,
        },
        &escapes,
    );
    pixels
}

#[test]
fn test_pixel_to_point() {
    // Pins the coordinate mapping that the rendering tests below feed the
    // library's band renderer with.
    assert_eq!(
        pixel_to_point(
            (100, 200),
            (25, 175),
            Complex { re: -1.0, im: 1.0 },
            Complex { re: 1.0, im: -1.0 }
        ),
        Complex { re: -0.5, im: -0.75 }
    )
}

#[test]
fn test_intensity() {
    assert_eq!(intensity(None), 0);
    assert_eq!(intensity(Some(0)), 255);
    assert_eq!(intensity(Some(1)), 254);
    assert_eq!(intensity(Some(254)), 1);
    assert_eq!(intensity(Some(255)), 0);
}

#[test]
fn test_escape_time_far_point_diverges_at_once() {
    // The iteration starts from z = 0, so a point whose own squared
    // magnitude already exceeds 4 is caught right after the first step.
    let c = Complex { re: 3.0, im: 0.0 };
    assert!(c.norm_sqr() > 4.0);
    assert_eq!(escape_time(c, 1), None);
    assert_eq!(escape_time(c, 2), Some(1));
    assert_eq!(escape_time(c, 255), Some(1));
    let d = Complex { re: -1.5, im: 1.5 };
    assert!(d.norm_sqr() > 4.0);
    assert_eq!(escape_time(d, 255), Some(1));
}

#[test]
fn test_escape_time_monotonic_in_limit() {
    // Raising the limit never changes a count that was already found.
    let samples = [
        Complex { re: 0.3, im: 0.5 },
        Complex { re: -1.2, im: 0.3 },
        Complex { re: 0.4, im: 0.4 },
        Complex { re: 1.0, im: 1.0 },
    ];
    for &c in samples.iter() {
        for limit in 1..64usize {
            if let Some(count) = escape_time(c, limit) {
                for higher in limit..64usize {
                    assert_eq!(escape_time(c, higher), Some(count));
                }
            }
        }
    }
}

#[test]
fn test_rows_per_band() {
    assert_eq!(rows_per_band(200, 8), 25);
    assert_eq!(rows_per_band(10, 4), 3);
    assert_eq!(rows_per_band(1, 8), 1);
    assert_eq!(rows_per_band(7, 1), 7);
    assert_eq!(rows_per_band(8, 3), 3);
}

#[test]
fn test_partition_bands_layout() {
    let bands = partition_bands(10, 3);
    assert_eq!(
        bands,
        vec![
            Band { top: 0, height: 3 },
            Band { top: 3, height: 3 },
            Band { top: 6, height: 3 },
            Band { top: 9, height: 1 },
        ]
    );
    let even = partition_bands(8, 2);
    assert_eq!(even.len(), 4);
    for (i, band) in even.iter().enumerate() {
        assert_eq!(band.top, 2 * i);
        assert_eq!(band.height, 2);
    }
    let one = partition_bands(5, 8);
    assert_eq!(one, vec![Band { top: 0, height: 5 }]);
}

#[test]
fn test_band_count_never_exceeds_workers() {
    for height in [1usize, 2, 7, 8, 9, 100, 750] {
        for workers in [1usize, 2, 4, 8] {
            let rpb = rows_per_band(height, workers);
            let bands = partition_bands(height, rpb);
            assert!(bands.len() <= workers, "height {} workers {}", height, workers);
        }
    }
}

#[test]
fn test_band_buffer_matches() {
    let bounds = Bounds {
        width: 4,
        height: 3,
    };
    assert!(band_buffer_matches(12, bounds));
    assert!(!band_buffer_matches(11, bounds));
    assert!(!band_buffer_matches(0, bounds));
}

#[test]
fn test_render_single_pixel_origin() {
    // A one-pixel image over the origin: the origin never escapes, so the
    // whole output is one black byte.
    let ul = Complex { re: 0.0, im: 0.0 };
    let lr = Complex { re: 0.0, im: 0.0 };
    let escapes = escapes_for((1, 1), ul, lr);
    assert_eq!(escapes, vec![None]);
    let mut pixels = vec![7u8; 1];
    render_band(
        &mut pixels,
        Bounds {
            width: 1,
            height: 1,
        },
        &escapes,
    );
    assert_eq!(pixels, vec![0u8]);
}

#[test]
fn test_banded_render_reassembles_whole() {
    // Splitting the rows into bands, rendering each band from its own rows'
    // escape results, and concatenating the outputs reproduces the
    // whole-image render exactly.
    let bounds = (10usize, 10usize);
    let ul = Complex { re: -1.2, im: 0.35 };
    let lr = Complex { re: -1.0, im: 0.2 };
    let whole = render_whole(bounds, ul, lr);
    let escapes = escapes_for(bounds, ul, lr);
    for workers in [1usize, 3, 4, 7] {
        let rpb = rows_per_band(bounds.1, workers);
        let mut assembled: Vec<u8> = Vec::new();
        for band in partition_bands(bounds.1, rpb) {
            let band_escapes =
                escapes[band.top * bounds.0..(band.top + band.height) * bounds.0].to_vec();
            let mut band_pixels = vec![0u8; band_escapes.len()];
            render_band(
                &mut band_pixels,
                Bounds {
                    width: bounds.0,
                    height: band.height,
                },
                &band_escapes,
            );
            assembled.extend_from_slice(&band_pixels);
        }
        assert_eq!(assembled, whole);

        let banded = render_banded(
            Bounds {
                width: bounds.0,
                height: bounds.1,
            },
            rpb,
            &escapes,
        );
        assert_eq!(banded, whole);
    }
}

#[test]
fn test_zero_buffer() {
    assert_eq!(zero_buffer(0), Vec::<u8>::new());
    assert_eq!(zero_buffer(4), vec![0u8; 4]);
}

#[test]
fn test_parallel_partitioning_is_deterministic() {
    // Rendering band by band through each band's own sub-viewport, as the
    // parallel scheduler does, gives byte-for-byte the single-worker image,
    // whatever the worker count.
    let bounds = (8usize, 8usize);
    let ul = Complex { re: -1.0, im: 1.0 };
    let lr = Complex { re: 1.0, im: -1.0 };
    let whole = render_whole(bounds, ul, lr);
    for workers in [1usize, 2, 4, 8] {
        let rpb = rows_per_band(bounds.1, workers);
        let mut assembled: Vec<u8> = Vec::new();
        for band in partition_bands(bounds.1, rpb) {
            let band_bounds = (bounds.0, band.height);
            let band_ul = pixel_to_point(bounds, (0, band.top), ul, lr);
            let band_lr = pixel_to_point(bounds, (bounds.0, band.top + band.height), ul, lr);
            let band_escapes = escapes_for(band_bounds, band_ul, band_lr);
            let mut band_pixels = vec![0u8; band_escapes.len()];
            render_band(
                &mut band_pixels,
                Bounds {
                    width: band_bounds.0,
                    height: band_bounds.1,
                },
                &band_escapes,
            );
            assembled.extend_from_slice(&band_pixels);
        }
        assert_eq!(assembled, whole, "worker count {}", workers);
    }
}
