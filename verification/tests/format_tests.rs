//! Errors, summaries and decoded values on small crafted inputs.

use imghex_core::format::{parse_fits, registry, ImageFormat};
use imghex_core::formats::bmp::BmpFormat;
use imghex_core::formats::jpeg::JpegFormat;
use imghex_core::formats::netpbm::NetpbmFormat;
use imghex_core::model::channel_name;
use imghex_core::stats::byte_counts;
use imghex_core::{fixtures, parse_auto, Channel, ParseError, RegionKind};

#[test]
fn unknown_bytes_are_not_recognized() {
    let e = parse_auto(&[0x00, 0x01, 0x02]).unwrap_err();
    assert_eq!(e, ParseError::NotRecognized);
    assert_eq!(e.message(), "not recognized as this format");
    assert_eq!(parse_auto(&[]).unwrap_err(), ParseError::NotRecognized);
}

#[test]
fn short_bmp_is_truncated() {
    let bmp = fixtures::demo_indexed();
    let e = parse_auto(&bmp[..10]).unwrap_err();
    assert_eq!(e, ParseError::Truncated { needed: 18, got: 10 });
    assert_eq!(e.message(), "file truncated: needed 18 bytes, got 10");
    let e = parse_auto(&bmp[..30]).unwrap_err();
    assert_eq!(e, ParseError::Truncated { needed: 54, got: 30 });
}

#[test]
fn short_core_header_bmp_is_truncated() {
    let mut bmp = fixtures::demo_indexed();
    bmp[14] = 12;
    let e = parse_auto(&bmp[..20]).unwrap_err();
    assert_eq!(e, ParseError::Truncated { needed: 26, got: 20 });
}

#[test]
fn netpbm_without_dimensions_is_malformed() {
    assert_eq!(parse_auto(b"P6\n").unwrap_err(), ParseError::Malformed("missing width".to_string()));
    assert_eq!(parse_auto(b"P6 4").unwrap_err(), ParseError::Malformed("missing height".to_string()));
    assert_eq!(parse_auto(b"P5 4 4").unwrap_err(), ParseError::Malformed("missing maxval".to_string()));
    assert_eq!(parse_auto(b"P5 x 4 255 ").unwrap_err(), ParseError::Malformed("bad width".to_string()));
    assert!(parse_auto(b"P5 1 1 255 \x07").is_ok());
}

#[test]
fn error_messages_name_their_detail() {
    assert_eq!(ParseError::Unsupported("RLE".to_string()).message(), "unsupported: RLE");
    assert_eq!(ParseError::Malformed("bad width".to_string()).message(), "malformed: bad width");
}

#[test]
fn each_format_rejects_bytes_without_its_magic() {
    let ppm = fixtures::demo_ppm();
    assert_eq!(BmpFormat.parse(&ppm).unwrap_err(), ParseError::NotRecognized);
    assert_eq!(JpegFormat.parse(&ppm).unwrap_err(), ParseError::NotRecognized);
    let bmp = fixtures::demo_indexed();
    assert_eq!(NetpbmFormat.parse(&bmp).unwrap_err(), ParseError::NotRecognized);
    assert_eq!(registry().iter().map(|f| f.name()).collect::<Vec<_>>(), vec!["BMP", "Netpbm", "JPEG"]);
}

#[test]
fn oversized_bmp_dimensions_do_not_fit() {
    let mut bmp = fixtures::demo_24bpp();
    assert!(parse_fits(&bmp));
    bmp[18..22].copy_from_slice(&0x7FFF_FFFFu32.to_le_bytes());
    bmp[22..26].copy_from_slice(&0x7FFF_FFFFu32.to_le_bytes());
    bmp[28..30].copy_from_slice(&0xFFFFu16.to_le_bytes());
    assert!(!parse_fits(&bmp));
    assert!(parse_fits(&fixtures::demo_jpeg()));
    assert!(parse_fits(b"anything"));
}

#[test]
fn bmp_summary_reports_layout() {
    let bmp = fixtures::indexed_8bpp(3, 2, &[imghex_core::Rgba::rgb(1, 2, 3)], &[0; 6]);
    let img = parse_auto(&bmp).unwrap();
    let get = |k: &str| img.summary.iter().find(|(a, _)| a == k).map(|(_, v)| v.clone()).unwrap();
    assert_eq!(get("Format"), "BMP (BITMAPINFOHEADER)");
    assert_eq!(get("Dimensions"), "3 × 2 px");
    assert_eq!(get("Bit depth"), "8 bpp");
    assert_eq!(get("Row order"), "bottom-up");
    assert_eq!(get("Row stride"), "4 bytes");
    assert_eq!(get("Palette entries"), "1");
    assert_eq!(get("Pixel data offset"), "58");
    assert_eq!(get("Actual file size"), format!("{} bytes", bmp.len()));
    assert_eq!(bmp.len(), 58 + 8);
}

#[test]
fn jpeg_summary_lists_tables_and_metadata() {
    let img = parse_auto(&fixtures::jpeg_dual_dht()).unwrap();
    let get = |k: &str| img.summary.iter().find(|(a, _)| a == k).map(|(_, v)| v.clone());
    assert_eq!(get("Format").unwrap(), "JPEG");
    assert_eq!(get("EXIF metadata").unwrap(), "absent");
    assert_eq!(get("Segments").unwrap(), "3");
    assert!(get("Dimensions").is_none());
    let img = parse_auto(&fixtures::jpeg_ycbcr()).unwrap();
    let get = |k: &str| img.summary.iter().find(|(a, _)| a == k).map(|(_, v)| v.clone());
    assert_eq!(get("Format").unwrap(), "JPEG (Start of Frame — progressive DCT)");
    assert_eq!(get("Components").unwrap(), "3 (YCbCr color)");
    assert_eq!(get("Sample precision").unwrap(), "8 bits/component");
    assert_eq!(get("Dimensions").unwrap(), "32 × 16 px");
}

#[test]
fn jfif_minor_version_has_two_digits() {
    let mut jpg = fixtures::jpeg_baseline(8, 8);
    // APP0 payload starts at offset 6; the version bytes follow "JFIF\0".
    jpg[11] = 2;
    jpg[12] = 5;
    let img = parse_auto(&jpg).unwrap();
    assert!(img.summary.iter().any(|(k, v)| k == "JFIF version" && v == "2.05"));
}

#[test]
fn comment_bytes_are_decoded_lossily() {
    // A comment holding an invalid UTF-8 byte decodes it as U+FFFD.
    let mut jpg = vec![0xFF, 0xD8, 0xFF, 0xFE, 0x00, 0x05, 0x68, 0xFF, 0x69];
    jpg.extend_from_slice(&[0xFF, 0xD9]);
    let img = parse_auto(&jpg).unwrap();
    let c = img.fields.iter().find(|f| f.name == "comment").unwrap();
    assert_eq!(c.value, "h\u{FFFD}i");
    assert_eq!((c.start, c.end), (6, 9));
    assert!(img.summary.iter().any(|(k, v)| k == "Comment" && v == "h\u{FFFD}i"));
}

#[test]
fn restart_interval_and_truncated_segments() {
    let jpg = vec![0xFF, 0xD8, 0xFF, 0xDD, 0x00, 0x04, 0x01, 0x00, 0xFF, 0xC4, 0x00];
    let img = parse_auto(&jpg).unwrap();
    let ri = img.fields.iter().find(|f| f.name == "restart_interval").unwrap();
    assert_eq!(ri.value, "256");
    let last = img.regions.last().unwrap();
    assert_eq!(last.name, "DHT (truncated)");
    assert_eq!(last.kind, RegionKind::Unknown);
    assert_eq!((last.start, last.end), (8, 11));
}

#[test]
fn exif_unknown_tags_and_out_of_range_data() {
    // Little-endian TIFF with one entry of an unknown tag whose ASCII data
    // points past the block.
    let mut tiff = vec![0x49, 0x49, 42, 0, 8, 0, 0, 0, 1, 0];
    tiff.extend_from_slice(&[0x34, 0x12, 2, 0, 9, 0, 0, 0, 0xF0, 0, 0, 0]);
    tiff.extend_from_slice(&[0, 0, 0, 0]);
    let mut app1 = b"Exif\0\0".to_vec();
    app1.extend_from_slice(&tiff);
    let mut jpg = vec![0xFF, 0xD8, 0xFF, 0xE1];
    jpg.extend_from_slice(&((app1.len() + 2) as u16).to_be_bytes());
    jpg.extend_from_slice(&app1);
    jpg.extend_from_slice(&[0xFF, 0xD9]);
    let img = parse_auto(&jpg).unwrap();
    let f = img.fields.iter().find(|f| f.name == "tag 0x1234").unwrap();
    assert_eq!(f.value, "(data out of range)");
    assert_eq!(f.len(), 12);
    let n = img.fields.iter().find(|f| f.name == "ifd0_entries").unwrap();
    assert_eq!(n.value, "1");
}

#[test]
fn byte_counts_summarize_a_range() {
    let c = byte_counts(&[3, 1, 3, 200, 1, 3]).unwrap();
    assert_eq!(c.count, 6);
    assert_eq!((c.min, c.max, c.sum), (1, 200, 211));
    assert_eq!(c.distinct, 3);
    assert_eq!((c.most_common, c.most_common_count), (3, 3));
    assert_eq!(c.histogram[1], 2);
    assert_eq!(c.histogram[200], 1);
    assert!(byte_counts(&[]).is_none());
    // On a tie the smaller value wins.
    let c = byte_counts(&[9, 4]).unwrap();
    assert_eq!(c.most_common, 4);
}

#[test]
fn channel_names() {
    assert_eq!(channel_name(Channel::Red), "Red");
    assert_eq!(channel_name(Channel::Luma), "Luminance");
}

#[test]
fn luma_bit_plane_reads_the_given_luminance() {
    let bmp = fixtures::bgr_24bpp(2, 1, &[imghex_core::Rgba::rgb(0, 0, 0), imghex_core::Rgba::rgb(0, 0, 0)]);
    let img = parse_auto(&bmp).unwrap();
    let r = img.render(&bmp).unwrap();
    let plane = r.bit_plane(Channel::Luma, 7, &[0x80, 0x7F]);
    assert_eq!(plane, vec![true, false]);
}

#[test]
fn inspector_byte_line_shows_hex_decimal_binary_and_character() {
    assert_eq!(imghex_core::text::byte_line(0x41), "0x41 · 65 · 0b01000001 · 'A'");
    assert_eq!(imghex_core::text::byte_line(0x0A), "0x0A · 10 · 0b00001010 · '.'");
    for b in 0..=255u8 {
        let shown = if (0x20..0x7f).contains(&b) { b as char } else { '.' };
        assert_eq!(imghex_core::text::byte_line(b), format!("0x{0:02X} · {0} · 0b{0:08b} · '{1}'", b, shown));
    }
}
