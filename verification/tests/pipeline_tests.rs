use printspots::color::Color;
use printspots::config::{PrintConfig, PrintingConstraints};
use printspots::image_processing::{dither_to_palette, mirror_image, to_grayscale};
use printspots::mesh::Rectangle;
use printspots::palette::ColorPalette;
use printspots::printability::{
    enforce_min_feature_size, merge_small_features, morphological_dilation, morphological_erosion,
};
use printspots::raster::Raster;
use printspots::vectorize::pixels_to_rectangles;

fn grey(v: u8) -> Color {
    Color { r: v, g: v, b: v }
}

fn black_white_palette() -> ColorPalette {
    ColorPalette {
        colors: vec![grey(0), grey(255)],
        layer_counts: vec![0, 1],
    }
}

#[test]
fn grayscale_uses_integer_luma_weights() {
    let mut image = Raster::new(1, 1, Color { r: 100, g: 50, b: 200 });
    image.put_pixel(0, 0, Color { r: 100, g: 50, b: 200 });
    let gray = to_grayscale(&image);
    // (299 * 100 + 587 * 50 + 114 * 200) / 1000 = 82
    assert_eq!(gray.get_pixel(0, 0), grey(82));
}

#[test]
fn mirror_flips_left_to_right() {
    let mut image = Raster::new(3, 1, grey(0));
    image.put_pixel(0, 0, grey(10));
    image.put_pixel(1, 0, grey(20));
    image.put_pixel(2, 0, grey(30));
    let mirrored = mirror_image(&image);
    assert_eq!(mirrored.get_pixel(0, 0), grey(30));
    assert_eq!(mirrored.get_pixel(1, 0), grey(20));
    assert_eq!(mirrored.get_pixel(2, 0), grey(10));
}

#[test]
fn dithering_is_deterministic_across_runs() {
    let mut image = Raster::new(4, 4, grey(0));
    for y in 0..4u32 {
        for x in 0..4u32 {
            image.put_pixel(x, y, grey((x * 60 + y * 13) as u8));
        }
    }
    let palette = black_white_palette();
    let first = dither_to_palette(&image, &palette);
    let second = dither_to_palette(&image, &palette);
    for y in 0..4u32 {
        for x in 0..4u32 {
            assert_eq!(first.get_pixel(x, y), second.get_pixel(x, y));
        }
    }
}

#[test]
fn dithering_diffuses_error_to_the_right() {
    let mut image = Raster::new(2, 1, grey(128));
    image.put_pixel(0, 0, grey(128));
    image.put_pixel(1, 0, grey(128));
    let palette = black_white_palette();
    let out = dither_to_palette(&image, &palette);
    // 128 is nearer to 255 (127 away) than to 0 (128 away); the error of
    // -127 pushes 7/16 of itself right: 128 - 55 = 73, nearer to 0.
    assert_eq!(out.get_pixel(0, 0), grey(255));
    assert_eq!(out.get_pixel(1, 0), grey(0));
}

#[test]
fn dithering_output_uses_palette_colors_only() {
    let mut image = Raster::new(3, 3, grey(0));
    for y in 0..3u32 {
        for x in 0..3u32 {
            image.put_pixel(x, y, Color { r: (x * 90) as u8, g: (y * 80) as u8, b: 17 });
        }
    }
    let palette = ColorPalette::fake(4);
    let out = dither_to_palette(&image, &palette);
    for y in 0..3u32 {
        for x in 0..3u32 {
            let c = out.get_pixel(x, y);
            assert!(palette.colors.contains(&c));
        }
    }
}

#[test]
fn erosion_takes_neighborhood_minimum() {
    let palette = black_white_palette();
    let mut image = Raster::new(3, 3, grey(255));
    image.put_pixel(1, 1, grey(255));
    image.put_pixel(0, 0, grey(0));
    let eroded = morphological_erosion(&image, &palette);
    // the interior cell sees a zero-layer neighbor and takes its color
    assert_eq!(eroded.get_pixel(1, 1), grey(0));
    // border cells stay as they were
    assert_eq!(eroded.get_pixel(0, 0), grey(0));
    assert_eq!(eroded.get_pixel(2, 2), grey(255));
}

#[test]
fn dilation_takes_neighborhood_maximum() {
    let palette = black_white_palette();
    let mut image = Raster::new(3, 3, grey(0));
    image.put_pixel(0, 0, grey(255));
    let dilated = morphological_dilation(&image, &palette);
    assert_eq!(dilated.get_pixel(1, 1), grey(255));
    assert_eq!(dilated.get_pixel(0, 0), grey(255));
}

#[test]
fn merge_replaces_singleton_with_majority_neighbor() {
    let palette = black_white_palette();
    let mut image = Raster::new(5, 5, grey(0));
    image.put_pixel(2, 2, grey(255));
    let merged = merge_small_features(&image, &palette, 2, 2);
    for y in 0..5u32 {
        for x in 0..5u32 {
            assert_eq!(merged.get_pixel(x, y), grey(0));
        }
    }
}

#[test]
fn scenario_isolated_pixel_is_absorbed_before_vectorization() {
    // a single pixel differing from its 8 neighbors, with merging enabled
    // and a minimum feature size above one pixel, takes the majority color
    let palette = black_white_palette();
    let mut image = Raster::new(5, 5, grey(0));
    image.put_pixel(2, 2, grey(255));
    let config = PrintConfig {
        base_thickness_um: 1000,
        layer_thickness_um: 50,
        image_size_um: 5000,
        max_layers: 1,
    };
    let constraints = PrintingConstraints {
        min_feature_size_um: 2000,
        merge_small_features: true,
        erosion_dilation_passes: 0,
    };
    let printable = enforce_min_feature_size(&image, &palette, &constraints, &config);
    for y in 0..5u32 {
        for x in 0..5u32 {
            assert_eq!(printable.get_pixel(x, y), grey(0));
        }
    }
    // the resulting layer map holds no singleton region below the threshold
    let map = printspots::generate::image_to_layer_map(&printable, &palette);
    let ones = printspots::generate::collect_layer_pixels(&map, 1);
    assert!(ones.is_empty());
}

#[test]
fn large_features_survive_merging() {
    let palette = black_white_palette();
    let mut image = Raster::new(6, 6, grey(0));
    for y in 0..3u32 {
        for x in 0..3u32 {
            image.put_pixel(x, y, grey(255));
        }
    }
    let merged = merge_small_features(&image, &palette, 2, 2);
    assert_eq!(merged.get_pixel(0, 0), grey(255));
    assert_eq!(merged.get_pixel(2, 2), grey(255));
    assert_eq!(merged.get_pixel(5, 5), grey(0));
}

fn covered(r: &Rectangle, x: u32, y: u32) -> bool {
    r.x <= x && x < r.x + r.width && r.y <= y && y < r.y + r.height
}

#[test]
fn rectangles_cover_pixel_set_exactly_once() {
    // an L-shaped region
    let pixels: Vec<(u32, u32)> = vec![
        (0, 0),
        (1, 0),
        (2, 0),
        (0, 1),
        (0, 2),
    ];
    let rects = pixels_to_rectangles(&pixels);
    for x in 0..4u32 {
        for y in 0..4u32 {
            let n = rects.iter().filter(|r| covered(r, x, y)).count();
            if pixels.contains(&(x, y)) {
                assert_eq!(n, 1, "pixel ({}, {}) covered {} times", x, y, n);
            } else {
                assert_eq!(n, 0, "pixel ({}, {}) covered though outside", x, y);
            }
        }
    }
}

#[test]
fn rectangle_growth_is_width_first() {
    let pixels: Vec<(u32, u32)> = vec![(0, 0), (1, 0), (0, 1), (1, 1)];
    let rects = pixels_to_rectangles(&pixels);
    assert_eq!(rects.len(), 1);
    assert_eq!(rects[0], Rectangle { x: 0, y: 0, width: 2, height: 2 });
}

#[test]
fn min_pixel_thresholds_round_up() {
    let config = PrintConfig {
        base_thickness_um: 1000,
        layer_thickness_um: 50,
        image_size_um: 100_000,
        max_layers: 19,
    };
    let constraints = PrintingConstraints {
        min_feature_size_um: 800,
        merge_small_features: true,
        erosion_dilation_passes: 1,
    };
    // 100 x 100 pixels over 100 mm: one millimeter per pixel
    assert_eq!(config.pixel_size(100, 100), (1000, 1000));
    assert_eq!(constraints.calculate_min_pixels(&config, 100, 100), (1, 1));
    // 400 x 200 pixels: a quarter millimeter per pixel, 0.8 mm needs 4
    assert_eq!(config.pixel_size(400, 200), (250, 250));
    assert_eq!(constraints.calculate_min_pixels(&config, 400, 200), (4, 4));
}

#[test]
fn total_height_grows_with_layer_count() {
    let config = PrintConfig {
        base_thickness_um: 1000,
        layer_thickness_um: 50,
        image_size_um: 100_000,
        max_layers: 19,
    };
    let mut previous = 0u64;
    for lc in 0..=19u32 {
        let h = config.calculate_total_height(lc, false);
        assert!(h >= previous);
        assert_eq!(h, 1000 + lc as u64 * 50);
        previous = h;
    }
    for lc in 0..=19u32 {
        assert_eq!(config.calculate_total_height(lc, true), 1000 + 19 * 50);
    }
}

#[test]
fn flat_top_black_shrinks_as_white_grows() {
    let config = PrintConfig {
        base_thickness_um: 1000,
        layer_thickness_um: 50,
        image_size_um: 100_000,
        max_layers: 19,
    };
    for lc in 0..=19u32 {
        let black = config.calculate_black_thickness(lc, true);
        assert_eq!(black, 1000 + (19 - lc) as u64 * 50);
        assert_eq!(config.calculate_black_thickness(lc, false), 1000);
    }
}

#[test]
fn enforcement_without_merging_is_one_opening() {
    let palette = black_white_palette();
    let mut image = Raster::new(4, 4, grey(0));
    image.put_pixel(1, 1, grey(255));
    let config = PrintConfig {
        base_thickness_um: 1000,
        layer_thickness_um: 50,
        image_size_um: 4000,
        max_layers: 1,
    };
    let constraints = PrintingConstraints {
        min_feature_size_um: 800,
        merge_small_features: false,
        erosion_dilation_passes: 1,
    };
    let out = enforce_min_feature_size(&image, &palette, &constraints, &config);
    // erosion removes the lone white cell; dilation has nothing to grow back
    for y in 0..4u32 {
        for x in 0..4u32 {
            assert_eq!(out.get_pixel(x, y), grey(0));
        }
    }
}

#[test]
fn region_decomposition_respects_layer_counts() {
    let palette = black_white_palette();
    let mut image = Raster::new(3, 2, grey(0));
    image.put_pixel(2, 0, grey(255));
    image.put_pixel(2, 1, grey(255));
    let regions = printspots::generate::vectorize_image_to_regions(&image, &palette);
    // every cell is covered exactly once, with its own layer count
    for y in 0..2u32 {
        for x in 0..3u32 {
            let hits: Vec<&(u32, Rectangle)> =
                regions.iter().filter(|(_, r)| covered(r, x, y)).collect();
            assert_eq!(hits.len(), 1);
            let expected = if x == 2 { 1 } else { 0 };
            assert_eq!(hits[0].0, expected);
        }
    }
}

#[test]
fn isolated_pixel_takes_first_seen_majority() {
    // center pixel isolated among five dark and three light neighbors: the
    // majority wins
    let palette = black_white_palette();
    let mut image = Raster::new(3, 3, grey(0));
    image.put_pixel(1, 1, grey(128));
    image.put_pixel(0, 0, grey(255));
    image.put_pixel(2, 0, grey(255));
    image.put_pixel(0, 2, grey(255));
    let merged = merge_small_features(&image, &palette, 2, 2);
    assert_eq!(merged.get_pixel(1, 1), grey(0));
}

#[test]
fn isolated_pixel_majority_tie_goes_to_first_seen() {
    // two neighbors, one of each color: the neighbor visited first wins
    let palette = black_white_palette();
    let mut image = Raster::new(1, 3, grey(0));
    image.put_pixel(0, 0, grey(255));
    image.put_pixel(0, 1, grey(128));
    // the walk sees (0, 0) before (0, 2)
    let merged = merge_small_features(&image, &palette, 2, 2);
    assert_eq!(merged.get_pixel(0, 1), grey(255));
}
