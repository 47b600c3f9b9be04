use exif_viewer::collect::collect_fields_from_bytes;
use exif_viewer::fields::ExifField;
use exif_viewer::score::{first_aesthetic_value, is_aesthetic_tag, is_supported_image, score_tokens};

const PNG_SIGNATURE: [u8; 8] = [0x89, b'P', b'N', b'G', 0x0D, 0x0A, 0x1A, 0x0A];

fn png_chunk(kind: &[u8; 4], payload: &[u8]) -> Vec<u8> {
    let mut chunk = Vec::new();
    chunk.extend_from_slice(&(payload.len() as u32).to_be_bytes());
    chunk.extend_from_slice(kind);
    chunk.extend_from_slice(payload);
    chunk.extend_from_slice(&[0, 0, 0, 0]);
    chunk
}

fn build_png_with_aesthetic_score(score: &str) -> Vec<u8> {
    let mut ihdr = Vec::new();
    ihdr.extend_from_slice(&1u32.to_be_bytes());
    ihdr.extend_from_slice(&1u32.to_be_bytes());
    ihdr.push(8);
    ihdr.push(2);
    ihdr.push(0);
    ihdr.push(0);
    ihdr.push(0);

    let mut payload = Vec::new();
    payload.extend_from_slice(b"Aesthetic score");
    payload.push(0);
    payload.extend_from_slice(score.as_bytes());

    let mut data = Vec::new();
    data.extend_from_slice(&PNG_SIGNATURE);
    data.extend(png_chunk(b"IHDR", &ihdr));
    data.extend(png_chunk(b"tEXt", &payload));
    data.extend(png_chunk(b"IEND", &[]));
    data
}

fn field(tag: &str, ifd: &str, value: &str) -> ExifField {
    ExifField {
        tag: tag.to_owned(),
        ifd: ifd.to_owned(),
        value: value.to_owned(),
    }
}

#[test]
fn aesthetic_tag_accepts_the_known_spellings() {
    assert!(is_aesthetic_tag("aesthetic score"));
    assert!(is_aesthetic_tag("Aesthetic score"));
    assert!(is_aesthetic_tag("AESTHETIC-SCORE"));
    assert!(is_aesthetic_tag("aesthetic_score"));
    assert!(is_aesthetic_tag("  AestheticScore  "));
    assert!(is_aesthetic_tag("\taesthetic score\n"));
}

#[test]
fn aesthetic_tag_rejects_other_tags() {
    assert!(!is_aesthetic_tag("score"));
    assert!(!is_aesthetic_tag("aesthetics core"));
    assert!(!is_aesthetic_tag("aesthetic  score"));
    assert!(!is_aesthetic_tag("an aesthetic score"));
    assert!(!is_aesthetic_tag(""));
}

#[test]
fn score_tokens_split_on_non_numeric_characters() {
    let tokens = score_tokens("Score: 0.82/1.0");
    assert_eq!(tokens, vec!["0.82".to_owned(), "1.0".to_owned()]);
    let tokens = score_tokens("no digits here");
    assert!(tokens.is_empty());
    let tokens = score_tokens("-1e3 and +.5");
    assert_eq!(tokens, vec!["-1".to_owned(), "3".to_owned(), "+.5".to_owned()]);
}

#[test]
fn first_aesthetic_value_takes_the_first_matching_field() {
    let fields = vec![
        field("Artist", "In(0)", "nobody"),
        field("Aesthetic_Score", "In(0)", "0.9"),
        field("aesthetic score", "PNG tEXt", "0.1"),
    ];
    let value = first_aesthetic_value(&fields);
    assert_eq!(value, Some("0.9".to_owned()));

    let fields = vec![field("Artist", "In(0)", "nobody")];
    assert_eq!(first_aesthetic_value(&fields), None);
}

#[test]
fn supported_image_extensions_are_recognized() {
    assert!(is_supported_image("photo.jpg"));
    assert!(is_supported_image("photo.JPG"));
    assert!(is_supported_image("a/b/photo.png"));
    assert!(is_supported_image("deep/tree/pic.TIFF"));
    assert!(is_supported_image("pic.webp"));
    assert!(is_supported_image("pic.heic"));
    assert!(is_supported_image("pic.heif"));
    assert!(is_supported_image("pic.avif"));
    assert!(is_supported_image("pic.bmp"));
    assert!(is_supported_image("pic.jpeg"));
    assert!(is_supported_image("pic.tif"));
}

#[test]
fn unsupported_paths_are_rejected() {
    assert!(!is_supported_image("archive.zip"));
    assert!(!is_supported_image("noextension"));
    assert!(!is_supported_image(".png"));
    assert!(!is_supported_image("dir/.png"));
    assert!(!is_supported_image("dir.png/file"));
    assert!(!is_supported_image("photo.png.txt"));
    assert!(!is_supported_image(""));
}

#[test]
fn score_threshold_keeps_only_the_high_image() {
    // Two images with embedded scores; the scan-side threshold keeps only
    // the one at or above 0.5.
    let high = build_png_with_aesthetic_score("0.82");
    let low = build_png_with_aesthetic_score("0.25");
    let min_score = 0.5f64;

    let mut kept = Vec::new();
    for (name, bytes) in [("high.png", &high), ("low.png", &low)] {
        let fields = collect_fields_from_bytes(bytes).expect("collection should succeed");
        let value = first_aesthetic_value(&fields).expect("score field should be present");
        let score = score_tokens(&value)
            .iter()
            .filter_map(|t| t.parse::<f64>().ok())
            .find(|s| s.is_finite())
            .expect("score should parse");
        if score >= min_score {
            kept.push((name, score));
        }
    }

    assert_eq!(kept.len(), 1);
    assert_eq!(kept[0].0, "high.png");
    assert!((kept[0].1 - 0.82).abs() < f64::EPSILON);
}
