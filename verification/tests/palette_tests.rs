use dither::color::Srgb8;
use dither::palettes::{grid, Split};
use dither::boxpal::{make_box_palette, make_box_palette_by};

fn c(r: u8, g: u8, b: u8) -> Srgb8 {
    Srgb8::new(r, g, b)
}

fn sorted_keys(palette: &[Srgb8]) -> Vec<u32> {
    let mut keys: Vec<u32> = palette.iter().map(|p| p.key()).collect();
    keys.sort_unstable();
    keys
}

fn cube_corner_keys() -> Vec<u32> {
    let mut keys = Vec::new();
    for &r in &[0u8, 255] {
        for &g in &[0u8, 255] {
            for &b in &[0u8, 255] {
                keys.push(c(r, g, b).key());
            }
        }
    }
    keys.sort_unstable();
    keys
}

#[test]
fn grid_two_levels_is_the_cube_corners() {
    let palette = grid(2, 2, 2);
    assert_eq!(palette.len(), 8);
    assert_eq!(sorted_keys(&palette), cube_corner_keys());
    // Lexicographic order of grid position.
    assert_eq!(palette[0], c(0, 0, 0));
    assert_eq!(palette[1], c(0, 0, 255));
    assert_eq!(palette[7], c(255, 255, 255));
}

#[test]
fn grid_websafe_levels() {
    let palette = grid(6, 6, 6);
    assert_eq!(palette.len(), 216);
    // Channel steps for six levels: (idx * 255 + 2) / 5.
    assert_eq!(palette[0], c(0, 0, 0));
    assert_eq!(palette[1], c(0, 0, 51));
    assert_eq!(palette[215], c(255, 255, 255));
    assert_eq!(palette[(1 * 6 + 2) * 6 + 3], c(51, 102, 153));
}

#[test]
fn grid_uneven_levels() {
    let palette = grid(3, 3, 2);
    assert_eq!(palette.len(), 18);
    // Three levels step by (idx * 255 + 1) / 2.
    assert_eq!(palette[(1 * 3 + 2) * 2 + 1], c(128, 255, 255));
}

#[test]
fn grid_full_resolution_channel() {
    // 256 levels reproduce every channel value unchanged.
    let palette = grid(256, 2, 2);
    assert_eq!(palette.len(), 1024);
    assert_eq!(palette[(128 * 2 + 1) * 2], c(128, 255, 0));
    assert_eq!(palette[(255 * 2 + 1) * 2 + 1], c(255, 255, 255));
}

#[test]
fn box_palette_small_request_returns_cube_corners() {
    let pixels = vec![c(10, 20, 30), c(200, 100, 50)];
    for &split in &[Split::Half, Split::Median] {
        let palette = make_box_palette(8, pixels.clone(), split, false);
        assert_eq!(palette.len(), 8);
        assert_eq!(sorted_keys(&palette), cube_corner_keys());
    }
}

#[test]
fn box_palette_empty_input_is_empty() {
    // With no pixels binned, the split releases every corner of the full
    // cube and nothing replaces them.
    for &optim in &[false, true] {
        for &split in &[Split::Half, Split::Median] {
            let palette = make_box_palette(64, Vec::new(), split, optim);
            assert!(palette.is_empty());
        }
    }
}

#[test]
fn box_palette_has_no_duplicates() {
    let mut pixels = Vec::new();
    for i in 0..50u8 {
        pixels.push(c(i, 255 - i, i / 2));
        pixels.push(c(200, i, 40));
    }
    for &split in &[Split::Half, Split::Median] {
        for &optim in &[false, true] {
            let palette = make_box_palette(24, pixels.clone(), split, optim);
            // The builder never overshoots the request.
            assert!(palette.len() <= 24);
            let mut keys = sorted_keys(&palette);
            let n = keys.len();
            keys.dedup();
            assert_eq!(keys.len(), n);
        }
    }
}

#[test]
fn median_split_of_edge_values_matches_half_split() {
    // When every pixel sits on a box face, the median split falls back to
    // the half range, so both strategies build the same palette.
    let mut pixels = Vec::new();
    for _ in 0..4 {
        pixels.push(c(0, 0, 0));
        pixels.push(c(255, 255, 255));
    }
    let by_half = make_box_palette(16, pixels.clone(), Split::Half, false);
    let by_median = make_box_palette(16, pixels.clone(), Split::Median, false);
    assert_eq!(sorted_keys(&by_half), sorted_keys(&by_median));
}

#[test]
fn mean_split_out_of_range_matches_half_split() {
    // A mean on the box edge is rejected and the half range used instead.
    let mut pixels = Vec::new();
    for i in 0..32u8 {
        pixels.push(c(i * 8, i * 4, i * 2));
    }
    let by_half = make_box_palette(20, pixels.clone(), Split::Half, false);
    let by_mean = make_box_palette_by(20, pixels.clone(), Split::Mean, false, |vals: &Vec<u8>| {
        let _ = vals;
        0u8
    });
    assert_eq!(sorted_keys(&by_half), sorted_keys(&by_mean));
}

#[test]
fn mean_split_with_gamma_mean() {
    // The mean strategy with the true gamma-corrected mean still builds a
    // duplicate-free palette.
    let mut pixels = Vec::new();
    for i in 0..64u8 {
        pixels.push(c(i.wrapping_mul(4), 128, 255 - i));
    }
    let palette = make_box_palette_by(32, pixels, Split::Mean, true, |vals: &Vec<u8>| {
        let total: f64 = vals.iter().map(|&v| srgb_decode(v)).sum();
        srgb_encode(total / vals.len() as f64)
    });
    let mut keys = sorted_keys(&palette);
    let n = keys.len();
    keys.dedup();
    assert_eq!(keys.len(), n);
}

fn srgb_decode(value: u8) -> f64 {
    let normalized = value as f64 / 255.0;
    if normalized < 0.04045 {
        normalized / 12.92
    } else {
        ((normalized + 0.055) / 1.055).powf(2.4)
    }
}

fn srgb_encode(value: f64) -> u8 {
    let normalized = if value <= 0.04045 / 12.92 {
        value * 12.92
    } else {
        value.powf(1.0 / 2.4) * 1.055 - 0.055
    };
    (normalized * 255.0).round() as u8
}
