use mandelbrot::bands::{band_bytes, band_plan, fixed_bands, row_bands, rows_per_band, Band, DEFAULT_WORKERS};
use mandelbrot::raster::render;
use mandelbrot::shading::{shade, ITERATION_LIMIT};

fn pattern(c: usize, r: usize) -> Option<u32> {
    if (c + r) % 3 == 0 {
        None
    } else {
        Some(((c * 7 + r * 13) % 255) as u32)
    }
}

fn render_whole(width: usize, height: usize) -> Vec<u8> {
    let mut pixels = vec![9u8; width * height];
    render(&mut pixels, (width, height), pattern);
    pixels
}

fn render_banded(width: usize, height: usize, bands: &[Band]) -> Vec<u8> {
    let mut pixels = vec![9u8; width * height];
    for band in bands {
        let (start, end) = band_bytes(*band, width, height);
        let top = band.top;
        render(&mut pixels[start..end], (width, band.rows), |c, r| pattern(c, top + r));
    }
    pixels
}

fn escape_time(re: f64, im: f64, limit: u32) -> Option<u32> {
    let (mut zr, mut zi) = (0.0f64, 0.0f64);
    for i in 0..limit {
        let nr = zr * zr - zi * zi + re;
        let ni = 2.0 * zr * zi + im;
        zr = nr;
        zi = ni;
        if zr * zr + zi * zi > 4.0 {
            return Some(i);
        }
    }
    None
}

#[test]
fn shade_inverts_escape_count() {
    assert_eq!(shade(None), 0);
    assert_eq!(shade(Some(0)), 255);
    assert_eq!(shade(Some(1)), 254);
    assert_eq!(shade(Some(254)), 1);
    assert_eq!(shade(Some(255)), 0);
    assert_eq!(shade(Some(1000)), 0);
    assert_eq!(ITERATION_LIMIT, 255);
}

#[test]
fn render_fills_row_major() {
    let pixels = render_whole(3, 2);
    let mut expected = Vec::new();
    for r in 0..2 {
        for c in 0..3 {
            expected.push(shade(pattern(c, r)));
        }
    }
    assert_eq!(pixels, expected);
    assert_eq!(pixels, vec![0, 248, 241, 242, 235, 0]);
}

#[test]
fn render_of_empty_image_touches_nothing() {
    let mut pixels: Vec<u8> = Vec::new();
    render(&mut pixels, (0, 5), pattern);
    assert!(pixels.is_empty());
    render(&mut pixels, (5, 0), pattern);
    assert!(pixels.is_empty());
}

#[test]
fn rows_per_band_rounds_up() {
    assert_eq!(rows_per_band(960, 8), 120);
    assert_eq!(rows_per_band(961, 8), 121);
    assert_eq!(rows_per_band(10, 8), 2);
    assert_eq!(rows_per_band(1, 8), 1);
    assert_eq!(rows_per_band(0, 8), 0);
}

#[test]
fn fixed_bands_share_rows() {
    let bands = fixed_bands(960, DEFAULT_WORKERS);
    assert_eq!(bands.len(), 8);
    for (i, b) in bands.iter().enumerate() {
        assert_eq!(*b, Band { top: 120 * i, rows: 120 });
    }
    assert_eq!(
        fixed_bands(10, 8),
        vec![
            Band { top: 0, rows: 2 },
            Band { top: 2, rows: 2 },
            Band { top: 4, rows: 2 },
            Band { top: 6, rows: 2 },
            Band { top: 8, rows: 2 },
        ]
    );
    assert_eq!(
        fixed_bands(7, 3),
        vec![Band { top: 0, rows: 3 }, Band { top: 3, rows: 3 }, Band { top: 6, rows: 1 }]
    );
    assert!(fixed_bands(0, 8).is_empty());
}

#[test]
fn row_bands_one_per_row() {
    assert_eq!(
        row_bands(3),
        vec![Band { top: 0, rows: 1 }, Band { top: 1, rows: 1 }, Band { top: 2, rows: 1 }]
    );
    assert!(row_bands(0).is_empty());
    assert_eq!(band_plan(5, 10), vec![Band { top: 0, rows: 5 }]);
}

#[test]
fn strategies_give_identical_buffers() {
    for &(w, h) in &[(4usize, 5usize), (7, 13), (1, 9), (9, 1), (16, 16)] {
        let whole = render_whole(w, h);
        assert_eq!(render_banded(w, h, &fixed_bands(h, DEFAULT_WORKERS)), whole);
        assert_eq!(render_banded(w, h, &fixed_bands(h, 3)), whole);
        assert_eq!(render_banded(w, h, &row_bands(h)), whole);
    }
}

#[test]
fn single_pixel_image_in_every_strategy() {
    assert_eq!(fixed_bands(1, DEFAULT_WORKERS), vec![Band { top: 0, rows: 1 }]);
    assert_eq!(row_bands(1), vec![Band { top: 0, rows: 1 }]);
    let whole = render_whole(1, 1);
    assert_eq!(whole, vec![0]);
    assert_eq!(render_banded(1, 1, &fixed_bands(1, DEFAULT_WORKERS)), whole);
    assert_eq!(render_banded(1, 1, &row_bands(1)), whole);
}

#[test]
fn full_size_render_marks_interior_black() {
    let (w, h) = (1280usize, 960usize);
    let (ul_re, ul_im, lr_re, lr_im) = (-2.0f64, 1.0f64, 0.6f64, -1.0f64);
    let point_escape = |c: usize, r: usize| {
        let re = ul_re + c as f64 * (lr_re - ul_re) / w as f64;
        let im = ul_im - r as f64 * (ul_im - lr_im) / h as f64;
        escape_time(re, im, ITERATION_LIMIT)
    };
    let mut pixels = vec![7u8; w * h];
    render(&mut pixels, (w, h), point_escape);
    // column 984 of row 480 lies next to the origin
    assert_eq!(pixels[480 * w + 984], 0);
    // the upper left corner, -2 + i, escapes at once
    assert_eq!(pixels[0], 255);
    for i in (0..w * h).step_by(997) {
        assert_eq!(pixels[i], shade(point_escape(i % w, i / w)));
    }
}

#[test]
fn band_bytes_span_whole_rows() {
    assert_eq!(band_bytes(Band { top: 0, rows: 3 }, 4, 7), (0, 12));
    assert_eq!(band_bytes(Band { top: 6, rows: 1 }, 4, 7), (24, 28));
    assert_eq!(band_bytes(Band { top: 2, rows: 0 }, 5, 2), (10, 10));
    let bands = fixed_bands(7, 3);
    let spans: Vec<(usize, usize)> = bands.iter().map(|b| band_bytes(*b, 4, 7)).collect();
    assert_eq!(spans, vec![(0, 12), (12, 24), (24, 28)]);
}
