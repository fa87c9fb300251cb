use dither::bias::{bayer_index, spread};

#[test]
fn spread_examples() {
    assert_eq!(spread(0), 0);
    assert_eq!(spread(1), 1);
    assert_eq!(spread(2), 0b100);
    assert_eq!(spread(0b1010), 0b01000100);
    assert_eq!(spread(0xFF), 0x5555);
}

#[test]
fn spread_even_positions_only() {
    for x in 0..=255u8 {
        let r = spread(x);
        assert_eq!(r & 0xAAAA, 0);
        for i in 0..8u16 {
            assert_eq!((r >> (2 * i)) & 1, ((x as u16) >> i) & 1);
        }
    }
}

#[test]
fn bayer2_matrix() {
    // The classic 2x2 Bayer cell.
    assert_eq!(bayer_index(1, 0, 0), 0);
    assert_eq!(bayer_index(1, 1, 0), 3);
    assert_eq!(bayer_index(1, 0, 1), 2);
    assert_eq!(bayer_index(1, 1, 1), 1);
}

#[test]
fn bayer_tiles_and_stays_in_range() {
    for bits in 1..=4u32 {
        let size = 1u32 << bits;
        for y in 0..size {
            for x in 0..size {
                let m = bayer_index(bits, x, y);
                assert!((m as u32) < size * size);
                // The pattern repeats with period `size` in both directions.
                assert_eq!(m, bayer_index(bits, x + size, y));
                assert_eq!(m, bayer_index(bits, x, y + 3 * size));
            }
        }
    }
}

#[test]
fn bayer_cell_is_a_permutation() {
    for bits in 1..=4u32 {
        let size = 1u32 << bits;
        let mut seen = vec![false; (size * size) as usize];
        for y in 0..size {
            for x in 0..size {
                let m = bayer_index(bits, x, y) as usize;
                assert!(!seen[m]);
                seen[m] = true;
            }
        }
        assert!(seen.iter().all(|&s| s));
    }
}

#[test]
fn bayer_bias_values() {
    // The host turns the cell value into a bias in [0, 1).
    let size = 4u32;
    for y in 0..size {
        for x in 0..size {
            let m = bayer_index(2, x, y);
            let bias = (0.5 + m as f64) / (size * size) as f64;
            assert!(bias > 0.0 && bias < 1.0);
        }
    }
}
