use exif_viewer::collect::collect_fields_from_bytes;
use std::io::Write;

const PNG_SIGNATURE: [u8; 8] = [0x89, b'P', b'N', b'G', 0x0D, 0x0A, 0x1A, 0x0A];

fn png_chunk(kind: &[u8; 4], payload: &[u8]) -> Vec<u8> {
    let mut chunk = Vec::new();
    chunk.extend_from_slice(&(payload.len() as u32).to_be_bytes());
    chunk.extend_from_slice(kind);
    chunk.extend_from_slice(payload);
    chunk.extend_from_slice(&[0, 0, 0, 0]);
    chunk
}

fn ihdr() -> Vec<u8> {
    let mut ihdr = Vec::new();
    ihdr.extend_from_slice(&1u32.to_be_bytes());
    ihdr.extend_from_slice(&1u32.to_be_bytes());
    ihdr.push(8);
    ihdr.push(2);
    ihdr.push(0);
    ihdr.push(0);
    ihdr.push(0);
    png_chunk(b"IHDR", &ihdr)
}

fn build_png_without_metadata() -> Vec<u8> {
    let mut data = Vec::new();
    data.extend_from_slice(&PNG_SIGNATURE);
    data.extend(ihdr());
    data.extend(png_chunk(
        b"IDAT",
        &[0x78, 0x9c, 0x63, 0x00, 0x00, 0x00, 0x02, 0x00, 0x01],
    ));
    data.extend(png_chunk(b"IEND", &[]));
    data
}

fn build_png_with_text_chunks() -> Vec<u8> {
    let mut data = Vec::new();
    data.extend_from_slice(&PNG_SIGNATURE);
    data.extend(ihdr());

    data.extend(png_chunk(b"tEXt", b"Software\0Test App"));

    let mut encoder =
        flate2::write::ZlibEncoder::new(Vec::new(), flate2::Compression::default());
    encoder.write_all(b"Compressed note").unwrap();
    let compressed = encoder.finish().unwrap();
    let mut ztxt_payload = Vec::new();
    ztxt_payload.extend_from_slice(b"Comment");
    ztxt_payload.push(0);
    ztxt_payload.push(0);
    ztxt_payload.extend_from_slice(&compressed);
    data.extend(png_chunk(b"zTXt", &ztxt_payload));

    let mut itxt_payload = Vec::new();
    itxt_payload.extend_from_slice(b"Description");
    itxt_payload.push(0);
    itxt_payload.push(0);
    itxt_payload.push(0);
    itxt_payload.extend_from_slice(b"en");
    itxt_payload.push(0);
    itxt_payload.extend_from_slice("Beschreibung".as_bytes());
    itxt_payload.push(0);
    itxt_payload.extend_from_slice(b"International text");
    data.extend(png_chunk(b"iTXt", &itxt_payload));

    data.extend(png_chunk(b"IEND", &[]));
    data
}

#[test]
fn png_without_exif_returns_empty_result() {
    let png = build_png_without_metadata();
    let fields = collect_fields_from_bytes(&png)
        .expect("PNG without metadata should return an empty result");
    assert!(fields.is_empty());
}

#[test]
fn unsupported_format_returns_friendly_error() {
    let text = b"# A readme\n\nThis is not an image at all, just some prose.\n";
    let error = collect_fields_from_bytes(text)
        .expect_err("Non-image files should not produce EXIF data");
    assert_eq!(error, "The selected file format is not supported.");
}

#[test]
fn png_text_chunks_are_exposed_as_metadata() {
    let png = build_png_with_text_chunks();
    let fields = collect_fields_from_bytes(&png).expect("PNG text chunks should be parsed");

    assert!(!fields.is_empty());

    let software = fields
        .iter()
        .find(|field| field.ifd == "PNG tEXt" && field.tag == "Software")
        .expect("expected Software tEXt field");
    assert_eq!(software.value, "Test App");

    let comment = fields
        .iter()
        .find(|field| field.ifd == "PNG zTXt" && field.tag == "Comment")
        .expect("expected Comment zTXt field");
    assert_eq!(comment.value, "Compressed note");

    let description = fields
        .iter()
        .find(|field| field.ifd == "PNG iTXt" && field.tag == "Description")
        .expect("expected Description iTXt field");
    assert!(description.value.contains("International text"));
    assert!(description.value.contains("Language tag: en"));
    assert!(description
        .value
        .contains("Translated keyword: Beschreibung"));
}

#[test]
fn collected_fields_are_sorted_by_section_then_tag() {
    let mut data = Vec::new();
    data.extend_from_slice(&PNG_SIGNATURE);
    data.extend(ihdr());
    // Tags out of order, and a later section interleaved first.
    data.extend(png_chunk(b"iTXt", b"Zeta\0\0\0\0\0one"));
    data.extend(png_chunk(b"tEXt", b"Beta\0two"));
    data.extend(png_chunk(b"tEXt", b"Alpha\0three"));
    data.extend(png_chunk(b"IEND", &[]));
    let fields = collect_fields_from_bytes(&data).expect("collection should succeed");
    assert_eq!(fields.len(), 3);
    for pair in fields.windows(2) {
        let a = &pair[0];
        let b = &pair[1];
        assert!(a.ifd <= b.ifd, "sections out of order: {} then {}", a.ifd, b.ifd);
        if a.ifd == b.ifd {
            assert!(a.tag <= b.tag, "tags out of order: {} then {}", a.tag, b.tag);
        }
    }
    // "PNG iTXt" precedes "PNG tEXt"; within "PNG tEXt", tags are ordered.
    assert_eq!(fields[0].tag, "Zeta");
    assert_eq!(fields[1].tag, "Alpha");
    assert_eq!(fields[2].tag, "Beta");
}

#[test]
fn duplicate_fields_are_preserved_in_input_order() {
    let mut data = Vec::new();
    data.extend_from_slice(&PNG_SIGNATURE);
    data.extend(ihdr());
    data.extend(png_chunk(b"tEXt", b"Software\0second to none"));
    data.extend(png_chunk(b"tEXt", b"Software\0also here"));
    data.extend(png_chunk(b"IEND", &[]));
    let fields = collect_fields_from_bytes(&data).expect("collection should succeed");
    assert_eq!(fields.len(), 2);
    assert_eq!(fields[0].tag, "Software");
    assert_eq!(fields[1].tag, "Software");
    // The sort is stable: equal fields keep their chunk order.
    assert_eq!(fields[0].value, "second to none");
    assert_eq!(fields[1].value, "also here");
}

#[test]
fn collection_twice_yields_identical_fields() {
    let png = build_png_with_text_chunks();
    let first = collect_fields_from_bytes(&png).expect("collection should succeed");
    let second = collect_fields_from_bytes(&png).expect("collection should succeed");
    assert_eq!(first.len(), second.len());
    for (a, b) in first.iter().zip(second.iter()) {
        assert_eq!(a.tag, b.tag);
        assert_eq!(a.ifd, b.ifd);
        assert_eq!(a.value, b.value);
    }
}

#[test]
fn tiff_container_records_are_merged_and_labelled() {
    // A minimal little-endian TIFF: one IFD holding one ASCII `Make`
    // entry with the value "abc".
    let tiff: Vec<u8> = vec![
        0x49, 0x49, 0x2A, 0x00, 0x08, 0x00, 0x00, 0x00, // header, IFD at 8
        0x01, 0x00, // one entry
        0x0F, 0x01, 0x02, 0x00, 0x04, 0x00, 0x00, 0x00, // Make, ASCII, count 4
        0x61, 0x62, 0x63, 0x00, // "abc\0" stored inline
        0x00, 0x00, 0x00, 0x00, // no next IFD
    ];
    let fields = collect_fields_from_bytes(&tiff).expect("TIFF should decode");
    assert_eq!(fields.len(), 1);
    assert_eq!(fields[0].tag, "Make");
    assert_eq!(fields[0].ifd, "In(0)");
    assert!(fields[0].value.contains("abc"));
}

#[test]
fn broken_jpeg_message_is_passed_through() {
    // A JPEG start-of-image marker with nothing after it: the container
    // decoder reports its own message, which is not the unknown-format
    // one, so it reaches the caller unchanged.
    let data = [0xFF, 0xD8, 0xFF];
    let error = collect_fields_from_bytes(&data)
        .expect_err("a cut-off JPEG should not decode");
    assert_eq!(error, "Broken JPEG file");
}
