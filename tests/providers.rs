use heightmap::{to_linear_gamma, to_linear_rgb, Colormap, ColormapPNG, Heightmap, HeightmapFlat, HeightmapPNG, Pixels};

#[test]
fn gamma_table_matches_formula() {
    for c in 0..=255u8 {
        let cf = (c as f64) / 255.0;
        let expected = (if cf > 0.04045 {
            (cf / 1.055 + 0.0521327).powf(2.4) * 255.0
        } else {
            cf / 12.192 * 255.0
        }) as u8;
        assert_eq!(to_linear_gamma(c), expected, "channel value {}", c);
    }
}

#[test]
fn gamma_known_values() {
    assert_eq!(to_linear_gamma(0), 0);
    assert_eq!(to_linear_gamma(128), 55);
    assert_eq!(to_linear_gamma(255), 254);
}

#[test]
fn linear_rgb_keeps_alpha() {
    assert_eq!(to_linear_rgb([128, 255, 0, 77]), [55, 254, 0, 77]);
}

#[test]
fn flat_heightmap_is_one_everywhere() {
    let m = HeightmapFlat::new((3, 2)).unwrap();
    assert_eq!(m.size(), (3, 2));
    assert_eq!(m.at(0, 0), 1);
    assert_eq!(m.at(2, 1), 1);
}

#[test]
fn pixels_need_exact_length() {
    assert!(Pixels::new(2, 2, vec![[0; 4]; 3]).is_none());
    assert!(Pixels::new(2, 2, vec![[0; 4]; 4]).is_some());
}

#[test]
fn heightmap_sums_red_channels() {
    let a = Pixels::new(2, 1, vec![[10, 1, 2, 3], [20, 0, 0, 0]]).unwrap();
    let b = Pixels::new(2, 1, vec![[5, 9, 9, 9], [7, 0, 0, 0]]).unwrap();
    let m = HeightmapPNG::new(vec![a, b], false).unwrap();
    assert_eq!(m.size(), (2, 1));
    assert_eq!(m.at(0, 0), 15);
    assert_eq!(m.at(1, 0), 27);
}

#[test]
fn heightmap_reads_big_endian_words() {
    let a = Pixels::new(1, 1, vec![[0, 0, 1, 2]]).unwrap();
    let b = Pixels::new(1, 1, vec![[1, 0, 0, 0]]).unwrap();
    let m = HeightmapPNG::new(vec![a, b], true).unwrap();
    assert_eq!(m.at(0, 0), 258 + 16_777_216);
}

#[test]
fn heightmap_needs_an_image() {
    assert_eq!(HeightmapPNG::new(vec![], false).err(), Some("HeightmapPNG requires at least one image".to_string()));
}

#[test]
fn heightmap_needs_equal_sizes() {
    let a = Pixels::new(1, 1, vec![[0; 4]]).unwrap();
    let b = Pixels::new(2, 1, vec![[0; 4]; 2]).unwrap();
    assert_eq!(HeightmapPNG::new(vec![a, b], false).err(), Some("Mismatched heightmap sizes".to_string()));
}

#[test]
fn colormap_converts_unless_linear() {
    let p = Pixels::new(1, 1, vec![[128, 0, 255, 9]]).unwrap();
    let srgb = ColormapPNG::new(p, false);
    assert_eq!(srgb.at(0, 0), [55, 0, 254, 9]);
    let p = Pixels::new(1, 1, vec![[128, 0, 255, 9]]).unwrap();
    let linear = ColormapPNG::new(p, true);
    assert_eq!(linear.at(0, 0), [128, 0, 255, 9]);
    assert_eq!(linear.size(), (1, 1));
}
