use printspots::color::Color;
use printspots::palette::ColorPalette;
use printspots::palette_codec::{decode_palette, encode_palette, encode_palette_legacy};

fn palettes_equal(a: &ColorPalette, b: &ColorPalette) -> bool {
    a.colors == b.colors && a.layer_counts == b.layer_counts
}

#[test]
fn test_ron_serialization_deserialization() {
    let palette = ColorPalette::fake(5);
    let saved = encode_palette(&palette);
    let loaded_palette = decode_palette(&saved).unwrap();
    assert!(palettes_equal(&palette, &loaded_palette));
}

#[test]
fn test_toml_backward_compatibility() {
    let palette = ColorPalette::fake(3);
    let legacy = encode_palette_legacy(&palette);
    let loaded_palette = decode_palette(&legacy).unwrap();
    assert!(palettes_equal(&palette, &loaded_palette));
}

#[test]
fn fake_palette_ramp_is_linear() {
    let palette = ColorPalette::fake(5);
    assert_eq!(palette.colors.len(), 6);
    assert_eq!(palette.layer_counts, vec![0, 1, 2, 3, 4, 5]);
    let intensities: Vec<u8> = palette.colors.iter().map(|c| c.r).collect();
    assert_eq!(intensities, vec![0, 51, 102, 153, 204, 255]);
    for c in &palette.colors {
        assert_eq!(c.r, c.g);
        assert_eq!(c.g, c.b);
    }
}

#[test]
fn layer_count_lookup_exact_match_and_fallback() {
    let palette = ColorPalette::fake(3);
    let grey85 = Color { r: 85, g: 85, b: 85 };
    assert_eq!(palette.get_layer_count_for_color(&grey85), 1);
    let absent = Color { r: 1, g: 2, b: 3 };
    assert_eq!(palette.get_layer_count_for_color(&absent), 0);
}

#[test]
fn color_lookup_by_layer_count() {
    let palette = ColorPalette::fake(3);
    assert_eq!(palette.get_color_for_layer_count(3), Some(Color { r: 255, g: 255, b: 255 }));
    assert_eq!(palette.get_color_for_layer_count(7), None);
}

#[test]
fn first_matching_palette_entry_wins() {
    let palette = ColorPalette {
        colors: vec![
            Color { r: 9, g: 9, b: 9 },
            Color { r: 9, g: 9, b: 9 },
        ],
        layer_counts: vec![4, 6],
    };
    assert_eq!(palette.get_layer_count_for_color(&Color { r: 9, g: 9, b: 9 }), 4);
}

#[test]
fn primary_encoding_exact_bytes() {
    let palette = ColorPalette {
        colors: vec![
            Color { r: 0, g: 0, b: 0 },
            Color { r: 255, g: 255, b: 255 },
        ],
        layer_counts: vec![0, 1],
    };
    let saved = encode_palette(&palette);
    let expected = b"colors = [[0, 0, 0], [255, 255, 255]]\nlayer_counts = [0, 1]\n";
    assert_eq!(saved, expected.to_vec());
}

#[test]
fn legacy_encoding_exact_bytes() {
    let palette = ColorPalette {
        colors: vec![Color { r: 12, g: 34, b: 56 }],
        layer_counts: vec![7],
    };
    let saved = encode_palette_legacy(&palette);
    let expected = b"(colors: [(12, 34, 56)], layer_counts: [7])";
    assert_eq!(saved, expected.to_vec());
}

#[test]
fn empty_palette_round_trip() {
    let palette = ColorPalette { colors: vec![], layer_counts: vec![] };
    let saved = encode_palette(&palette);
    assert_eq!(saved, b"colors = []\nlayer_counts = []\n".to_vec());
    let loaded = decode_palette(&saved).unwrap();
    assert!(palettes_equal(&palette, &loaded));
}

#[test]
fn malformed_palette_files_are_rejected() {
    assert!(decode_palette(&b"".to_vec()).is_none());
    assert!(decode_palette(&b"colors = [".to_vec()).is_none());
    assert!(decode_palette(&b"colors = [[0, 0]]\nlayer_counts = [0]\n".to_vec()).is_none());
    assert!(decode_palette(&b"colors = [[0, 0, 0]]\nlayer_counts = []\n".to_vec()).is_none());
    assert!(decode_palette(&b"colors = [[00, 0, 0]]\nlayer_counts = [0]\n".to_vec()).is_none());
    assert!(decode_palette(&b"colors = [[256, 0, 0]]\nlayer_counts = [0]\n".to_vec()).is_none());
    assert!(
        decode_palette(&b"colors = [[0, 0, 0]]\nlayer_counts = [0]\ntrailing".to_vec()).is_none()
    );
}

#[test]
fn palette_data_converts_to_palette() {
    let data = printspots::transport::PaletteData {
        id: Some("cal".to_string()),
        colors: vec![[1, 2, 3], [4, 5, 6]],
        layer_counts: vec![2, 9],
    };
    let palette = data.to_color_palette();
    assert_eq!(palette.colors, vec![
        Color { r: 1, g: 2, b: 3 },
        Color { r: 4, g: 5, b: 6 },
    ]);
    assert_eq!(palette.layer_counts, vec![2, 9]);
}
