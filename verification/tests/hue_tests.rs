use dither::color::Srgb8;
use dither::hue::{bin_by_hue, hue_sector, seed_simplex};

#[test]
fn sector_of_pure_hues() {
    // Reds and oranges sit in the yellow-red sector.
    assert_eq!(hue_sector(Srgb8::new(200, 100, 0)), 0);
    // Chartreuse: more green than red, blue lowest of all.
    assert_eq!(hue_sector(Srgb8::new(100, 200, 0)), 1);
    // Spring green: green dominant, blue above red.
    assert_eq!(hue_sector(Srgb8::new(0, 200, 100)), 2);
    // Azure: blue dominant over green over red.
    assert_eq!(hue_sector(Srgb8::new(10, 20, 30)), 3);
    // Violet: blue dominant, red above green.
    assert_eq!(hue_sector(Srgb8::new(100, 0, 200)), 4);
    // Rose: red dominant, blue above green.
    assert_eq!(hue_sector(Srgb8::new(200, 0, 100)), 5);
}

#[test]
fn gray_goes_to_magenta_red() {
    assert_eq!(hue_sector(Srgb8::new(0, 0, 0)), 5);
    assert_eq!(hue_sector(Srgb8::new(128, 128, 128)), 5);
    assert_eq!(hue_sector(Srgb8::new(255, 255, 255)), 5);
}

#[test]
fn binning_keeps_every_pixel_in_its_sector() {
    let pixels = vec![
        Srgb8::new(200, 100, 0),
        Srgb8::new(10, 20, 30),
        Srgb8::new(10, 20, 30),
        Srgb8::new(128, 128, 128),
        Srgb8::new(0, 200, 100),
    ];
    let bins = bin_by_hue(&pixels);
    assert_eq!(bins.len(), 6);
    let total: usize = bins.iter().map(|b| b.len()).sum();
    assert_eq!(total, pixels.len());
    for (s, bin) in bins.iter().enumerate() {
        for &p in bin {
            assert_eq!(hue_sector(p), s);
        }
    }
    // The duplicate azure pixels stay together, in order.
    assert_eq!(bins[3], vec![Srgb8::new(10, 20, 30), Srgb8::new(10, 20, 30)]);
    assert_eq!(bins[5], vec![Srgb8::new(128, 128, 128)]);
}

#[test]
fn gradient_pixels_all_share_one_bin() {
    // A black-to-white gradient is entirely gray, so every pixel lands in
    // the magenta-red seed simplex.
    let pixels: Vec<Srgb8> = (0..=255u8).map(|v| Srgb8::new(v, v, v)).collect();
    let bins = bin_by_hue(&pixels);
    assert_eq!(bins[5].len(), 256);
    for s in 0..5 {
        assert!(bins[s].is_empty());
    }
}

#[test]
fn seed_simplices_share_black_and_white() {
    let corners = [
        Srgb8::new(255, 0, 0),
        Srgb8::new(255, 255, 0),
        Srgb8::new(0, 255, 0),
        Srgb8::new(0, 255, 255),
        Srgb8::new(0, 0, 255),
        Srgb8::new(255, 0, 255),
    ];
    for s in 0..6usize {
        let v = seed_simplex(s);
        assert_eq!(v[0], Srgb8::new(0, 0, 0));
        assert_eq!(v[1], Srgb8::new(255, 255, 255));
        assert_eq!(v[2], corners[s]);
        assert_eq!(v[3], corners[(s + 1) % 6]);
    }
}
