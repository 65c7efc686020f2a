use morpion_solitaire::render::{crc32, embed_msr_png, embed_msr_svg, extract_msr_png, extract_msr_svg};
use resvg::{tiny_skia, usvg};

/// A small SVG document of the shape the renderer produces for the 5T cross.
fn cross_svg() -> String {
    let mut s = String::new();
    s.push_str(
        "<svg xmlns=\"http://www.w3.org/2000/svg\" viewBox=\"0 0 595 595\" \
         font-family=\"'Atkinson Hyperlegible Next', sans-serif\">\n",
    );
    s.push_str("<rect width=\"595\" height=\"595\" fill=\"#f7f7f4\"/>\n");
    s.push_str("<g fill=\"#15161c\">\n<circle cx=\"225.6\" cy=\"81.6\" r=\"5.28\"/>\n</g>\n");
    s.push_str("</svg>\n");
    s
}

/// A real PNG stream, as the rasteriser encodes it (IHDR, IDAT, IEND).
fn real_png() -> Vec<u8> {
    let tree = usvg::Tree::from_str(&cross_svg(), &usvg::Options::default()).unwrap();
    let size = tree.size().to_int_size();
    let mut pixmap = tiny_skia::Pixmap::new(size.width(), size.height()).unwrap();
    resvg::render(&tree, tiny_skia::Transform::identity(), &mut pixmap.as_mut());
    pixmap.encode_png().unwrap()
}

#[test]
fn svg_record_roundtrips() {
    let svg = cross_svg();
    let msr = "MS1:abc-_DEF--ghi"; // note the "--": must survive (not a comment)
    let embedded = embed_msr_svg(&svg, msr);
    assert!(embedded.contains("<metadata"));
    assert_eq!(extract_msr_svg(&embedded).as_deref(), Some(msr));
    assert_eq!(extract_msr_svg(&svg), None); // a plain SVG carries nothing
}

// Exercise the splice against a real encoded PNG (real IHDR, IDAT, IEND), not a
// hand-built stub.
#[test]
fn real_png_carries_record() {
    let png = real_png();
    assert_eq!(extract_msr_png(&png), None);
    let payload = "MS1:real--payload_-with-url-safe-b64";
    let embedded = embed_msr_png(&png, payload);
    assert_eq!(extract_msr_png(&embedded).as_deref(), Some(payload));
    assert!(embedded.starts_with(b"\x89PNG\r\n\x1a\n".as_slice()));
}

#[test]
fn png_record_roundtrips() {
    // A minimal PNG: signature + IHDR + IEND (CRCs need not be real for the
    // chunk walker, which doesn't verify them).
    let mut png = Vec::new();
    png.extend_from_slice(b"\x89PNG\r\n\x1a\n");
    let mut ihdr = Vec::new();
    ihdr.extend_from_slice(&13u32.to_be_bytes());
    ihdr.extend_from_slice(b"IHDR");
    ihdr.extend_from_slice(&[0u8; 13]);
    ihdr.extend_from_slice(&[0u8; 4]);
    png.extend_from_slice(&ihdr);
    png.extend_from_slice(&0u32.to_be_bytes());
    png.extend_from_slice(b"IEND");
    png.extend_from_slice(&[0u8; 4]);

    let msr = "MS1:hello-_world";
    let embedded = embed_msr_png(&png, msr);
    assert_eq!(extract_msr_png(&embedded).as_deref(), Some(msr));
    assert_eq!(extract_msr_png(&png), None);
    assert_eq!(extract_msr_png(b"not a png"), None);
}

#[test]
fn crc32_known_values() {
    // The standard CRC-32 check value.
    assert_eq!(crc32(b"123456789"), 0xCBF4_3926);
    assert_eq!(crc32(b""), 0);
    assert_eq!(crc32(b"IEND"), 0xAE42_6082);
}

#[test]
fn embedded_png_chunk_layout() {
    let mut png = Vec::new();
    png.extend_from_slice(b"\x89PNG\r\n\x1a\n");
    png.extend_from_slice(&0u32.to_be_bytes());
    png.extend_from_slice(b"IHDR");
    png.extend_from_slice(&[0u8; 4]);
    let out = embed_msr_png(&png, "ab");
    // Inserted right after the (empty) IHDR chunk: length 6 ("msr\0ab"), tEXt.
    assert_eq!(&out[20..24], &6u32.to_be_bytes());
    assert_eq!(&out[24..28], b"tEXt");
    assert_eq!(&out[28..34], b"msr\0ab");
    let crc = crc32(b"tEXtmsr\0ab");
    assert_eq!(&out[34..38], &crc.to_be_bytes());
    assert_eq!(out.len(), png.len() + 18);
}

#[test]
fn svg_without_svg_tag_gets_the_record_appended() {
    let out = embed_msr_svg("plain", "MS1:x");
    assert_eq!(out, "plain\n<metadata id=\"morpion-solitaire-record\">MS1:x</metadata>");
    assert_eq!(extract_msr_svg(&out).as_deref(), Some("MS1:x"));
    // Surrounding whitespace inside the element is trimmed on the way out.
    let padded = "<metadata id=\"morpion-solitaire-record\">  MS1:y \n</metadata>";
    assert_eq!(extract_msr_svg(padded).as_deref(), Some("MS1:y"));
    assert_eq!(extract_msr_svg("id=\"morpion-solitaire-record\">no end"), None);
}
