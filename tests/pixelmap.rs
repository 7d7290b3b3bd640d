use pixelmap::color::{color_distance_sq, encode_hex, hex_to_rgba, ColorMode, Rgba};
use pixelmap::GridError;
use pixelmap::grid::{map_pixels, pixelate, Document};
use pixelmap::image::Image;
use pixelmap::rebuild::{missing_color_ids, reconstruct};
use pixelmap::table::ColorTable;

fn rgba(r: u8, g: u8, b: u8, a: u8) -> Rgba {
    Rgba { r, g, b, a }
}

fn image(width: u32, height: u32, pixels: Vec<Rgba>) -> Image {
    assert_eq!(pixels.len(), (width * height) as usize);
    Image { width, height, pixels }
}

fn red_green() -> Image {
    image(
        2,
        2,
        vec![rgba(255, 0, 0, 255), rgba(255, 0, 0, 255), rgba(0, 255, 0, 255), rgba(0, 255, 0, 255)],
    )
}

fn colors(doc: &Document) -> Vec<(u32, String)> {
    doc.colors.clone()
}

fn entry(id: u32, hex: &str) -> (u32, String) {
    (id, hex.to_string())
}

#[test]
fn encode_hex_both_modes() {
    assert_eq!(encode_hex(rgba(255, 0, 16, 128), ColorMode::Rgba), "#ff001080");
    assert_eq!(encode_hex(rgba(255, 0, 16, 128), ColorMode::Rgb), "#ff0010");
    assert_eq!(encode_hex(rgba(9, 10, 11, 0), ColorMode::Rgba), "#00000000");
    assert_eq!(encode_hex(rgba(9, 10, 11, 0), ColorMode::Rgb), "#00000000");
}

#[test]
fn decode_hex_values() {
    assert_eq!(hex_to_rgba("#ff001080"), Ok(rgba(255, 0, 16, 128)));
    assert_eq!(hex_to_rgba("#FFaa00"), Ok(rgba(255, 170, 0, 255)));
}

#[test]
fn decode_hex_rejects_malformed() {
    assert_eq!(hex_to_rgba("ff0010800"), Err(GridError::FormatError));
    assert_eq!(hex_to_rgba("#ff00108"), Err(GridError::FormatError));
    assert_eq!(hex_to_rgba("#ff0g1080"), Err(GridError::FormatError));
    assert_eq!(hex_to_rgba("#+f001080"), Err(GridError::FormatError));
    assert_eq!(hex_to_rgba(""), Err(GridError::FormatError));
}

#[test]
fn distance_squared() {
    let a = rgba(10, 20, 30, 40);
    let b = rgba(13, 16, 30, 52);
    assert_eq!(color_distance_sq(a, b, ColorMode::Rgba), 9 + 16 + 144);
    assert_eq!(color_distance_sq(a, b, ColorMode::Rgb), 25);
    assert_eq!(color_distance_sq(rgba(0, 0, 0, 0), rgba(255, 255, 255, 255), ColorMode::Rgba), 260100);
}

#[test]
fn single_block_averages_to_one_color() {
    let doc = pixelate(&red_green(), 2, ColorMode::Rgba, 0).unwrap();
    assert_eq!(doc.matrix, vec![vec![1]]);
    assert_eq!(colors(&doc), vec![entry(1, "#7f7f00ff")]);
}

#[test]
fn map_mode_two_colors() {
    let doc = map_pixels(&red_green(), 0);
    assert_eq!(doc.matrix, vec![vec![1, 1], vec![2, 2]]);
    assert_eq!(colors(&doc), vec![entry(1, "#ff0000"), entry(2, "#00ff00")]);
}

#[test]
fn zero_block_size_is_rejected() {
    assert_eq!(pixelate(&red_green(), 0, ColorMode::Rgba, 0).unwrap_err(), GridError::InvalidArgument);
}

#[test]
fn edge_blocks_are_clamped() {
    // 5 x 3 image, blocks of 2: 3 columns, 2 rows; the last column is one pixel wide.
    let mut pixels = Vec::new();
    for y in 0..3u8 {
        for x in 0..5u8 {
            pixels.push(rgba(x * 10, y * 10, 0, 255));
        }
    }
    let img = image(5, 3, pixels);
    let doc = pixelate(&img, 2, ColorMode::Rgba, 0).unwrap();
    assert_eq!(doc.matrix.len(), 2);
    assert!(doc.matrix.iter().all(|row| row.len() == 3));
    assert_eq!(img.block_average(4, 2, 2), rgba(40, 20, 0, 255));
    assert_eq!(img.block_average(0, 0, 2), rgba(5, 5, 0, 255));
    assert_eq!(img.block_average(4, 0, 2), rgba(40, 5, 0, 255));
    assert_eq!(doc.matrix, vec![vec![1, 2, 3], vec![4, 5, 6]]);
}

#[test]
fn every_grid_id_is_in_the_table() {
    let mut pixels = Vec::new();
    for i in 0..12u8 {
        pixels.push(rgba(i % 3 * 50, i % 2 * 90, 7, if i % 4 == 0 { 0 } else { 255 }));
    }
    let img = image(4, 3, pixels);
    for size in 1..4u32 {
        for tol in [0u32, 100, 10000] {
            let doc = pixelate(&img, size, ColorMode::Rgba, tol).unwrap();
            for row in &doc.matrix {
                for id in row {
                    assert!(doc.colors.iter().any(|(k, _)| k == id));
                }
            }
            assert!(missing_color_ids(&doc).is_empty());
        }
    }
}

#[test]
fn transparent_pixels_map_to_zero() {
    let img = image(3, 1, vec![rgba(200, 10, 10, 0), rgba(1, 2, 3, 255), rgba(0, 0, 0, 0)]);
    let doc = pixelate(&img, 1, ColorMode::Rgba, 0).unwrap();
    assert_eq!(doc.matrix, vec![vec![0, 1, 0]]);
    assert_eq!(colors(&doc), vec![entry(0, "#00000000"), entry(1, "#010203ff")]);
    let fuzzy = pixelate(&img, 1, ColorMode::Rgba, 100000).unwrap();
    assert_eq!(fuzzy.matrix, vec![vec![0, 1, 0]]);
}

#[test]
fn transparent_sample_adds_no_palette_entry() {
    let mut t = ColorTable::new();
    assert_eq!(t.resolve(rgba(9, 9, 9, 0), ColorMode::Rgba, 50), 0);
    assert_eq!(t.resolve(rgba(9, 9, 9, 255), ColorMode::Rgba, 50), 1);
    assert_eq!(t.resolve(rgba(50, 50, 50, 0), ColorMode::Rgba, 50), 0);
    assert_eq!(t.entries(ColorMode::Rgba), vec![entry(0, "#00000000"), entry(1, "#090909ff")]);
}

#[test]
fn fuzzy_match_takes_first_in_palette() {
    let mut t = ColorTable::new();
    assert_eq!(t.resolve(rgba(0, 0, 0, 255), ColorMode::Rgba, 0), 1);
    assert_eq!(t.resolve(rgba(10, 0, 0, 255), ColorMode::Rgba, 0), 2);
    // Within 100 of both; the first palette entry wins.
    assert_eq!(t.resolve(rgba(5, 0, 0, 255), ColorMode::Rgba, 100), 1);
    // The fuzzy hit is remembered as an exact match.
    assert_eq!(t.resolve(rgba(5, 0, 0, 255), ColorMode::Rgba, 0), 1);
    assert_eq!(t.resolve(rgba(50, 0, 0, 255), ColorMode::Rgba, 100), 3);
}

#[test]
fn tolerance_never_adds_identifiers() {
    let mut pixels = Vec::new();
    for i in 0..36u32 {
        pixels.push(rgba((i * 7 % 256) as u8, (i * 13 % 256) as u8, (i * 29 % 256) as u8, 255));
    }
    let img = image(6, 6, pixels);
    let exact = pixelate(&img, 1, ColorMode::Rgba, 0).unwrap();
    for tol in [1u32, 50, 500, 5000, 50000, 260100] {
        let fuzzy = pixelate(&img, 1, ColorMode::Rgba, tol).unwrap();
        assert!(fuzzy.colors.len() <= exact.colors.len());
    }
    let all = pixelate(&img, 1, ColorMode::Rgba, 260100).unwrap();
    assert_eq!(all.colors.len(), 1);
}

#[test]
fn round_trip_per_pixel() {
    let mut pixels = Vec::new();
    for i in 0..20u32 {
        let a = if i % 5 == 0 { 0 } else { (i * 11 % 256) as u8 };
        let p = if a == 0 { rgba(0, 0, 0, 0) } else { rgba((i * 3) as u8, (i * 40 % 256) as u8, 7, a) };
        pixels.push(p);
    }
    let img = image(5, 4, pixels);
    let doc = pixelate(&img, 1, ColorMode::Rgba, 0).unwrap();
    let back = reconstruct(&doc).unwrap();
    assert_eq!(back.width, img.width);
    assert_eq!(back.height, img.height);
    assert_eq!(back.pixels, img.pixels);
}

#[test]
fn reconstruct_rejects_empty_grid() {
    let doc = Document { matrix: vec![], colors: vec![entry(1, "#ff0000ff")] };
    assert_eq!(reconstruct(&doc).unwrap_err(), GridError::FormatError);
}

#[test]
fn reconstruct_rejects_bad_hex() {
    let doc = Document { matrix: vec![vec![1, 2]], colors: vec![entry(1, "#ff0000ff"), entry(2, "red")] };
    assert_eq!(reconstruct(&doc).unwrap_err(), GridError::FormatError);
}

#[test]
fn reconstruct_missing_id_is_transparent() {
    let doc = Document { matrix: vec![vec![1, 7], vec![7]], colors: vec![entry(1, "#102030")] };
    let img = reconstruct(&doc).unwrap();
    assert_eq!(img.pixels, vec![rgba(16, 32, 48, 255), rgba(0, 0, 0, 0), rgba(0, 0, 0, 0), rgba(0, 0, 0, 0)]);
    assert_eq!(missing_color_ids(&doc), vec![7, 7]);
}

#[test]
fn json_layout() {
    let doc = pixelate(&red_green(), 1, ColorMode::Rgba, 0).unwrap();
    let text = doc.to_json();
    assert_eq!(
        text,
        "{\n  \"matrix\": [\n    [1,1],\n    [2,2]\n  ],\n  \"colors\": {\n  \"1\": \"#ff0000ff\",\n  \"2\": \"#00ff00ff\"\n}\n}"
    );
    let empty = Document { matrix: vec![], colors: vec![] };
    assert_eq!(empty.to_json(), "{\n  \"matrix\": [\n  ],\n  \"colors\": {}\n}");
}

fn parse(text: &str) -> Document {
    let v: serde_json::Value = serde_json::from_str(text).unwrap();
    let matrix = v["matrix"]
        .as_array()
        .unwrap()
        .iter()
        .map(|row| row.as_array().unwrap().iter().map(|n| n.as_u64().unwrap() as u32).collect())
        .collect();
    let mut colors: Vec<(u32, String)> = v["colors"]
        .as_object()
        .unwrap()
        .iter()
        .map(|(k, h)| (k.parse().unwrap(), h.as_str().unwrap().to_string()))
        .collect();
    colors.sort();
    Document { matrix, colors }
}

#[test]
fn serialize_parse_serialize_is_stable() {
    let img = image(3, 2, vec![
        rgba(1, 2, 3, 255), rgba(0, 0, 0, 0), rgba(1, 2, 3, 255),
        rgba(250, 2, 3, 9), rgba(4, 4, 4, 255), rgba(0, 0, 0, 0),
    ]);
    let doc = pixelate(&img, 1, ColorMode::Rgba, 0).unwrap();
    let first = doc.to_json();
    let second = parse(&first).to_json();
    assert_eq!(first, second);
    assert_eq!(parse(&second).to_json(), second);
}

#[test]
fn first_match_grouping_is_not_monotone_between_positive_tolerances() {
    let img = image(4, 1, vec![
        rgba(10, 10, 0, 255), rgba(16, 10, 0, 255), rgba(16, 15, 0, 255), rgba(16, 5, 0, 255),
    ]);
    let exact = pixelate(&img, 1, ColorMode::Rgba, 0).unwrap();
    let five = pixelate(&img, 1, ColorMode::Rgba, 25).unwrap();
    let six = pixelate(&img, 1, ColorMode::Rgba, 36).unwrap();
    assert_eq!(exact.colors.len(), 4);
    assert_eq!(five.matrix, vec![vec![1, 2, 2, 2]]);
    assert_eq!(six.matrix, vec![vec![1, 1, 2, 3]]);
    assert!(five.colors.len() < six.colors.len());
    assert!(six.colors.len() <= exact.colors.len());
}
