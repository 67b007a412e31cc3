//! Concrete checks of the library's laws: regions partition the file,
//! fields are ordered, jumping to a pixel's bytes comes back to the pixel and
//! lists it with its color, built images read back their pixels, overwrites
//! are idempotent, the legend names each kind once, and each file is
//! recognized by one format.

use imghex_core::edit::overwrite_byte;
use imghex_core::format::{registry, ImageFormat, ParseError};
use imghex_core::search::{find_all, find_next};
use imghex_core::stats::{byte_counts, counts_fit};
use imghex_core::model::{PixelEncoding, PixelInfo};
use imghex_core::{fixtures, parse_auto, ParsedImage, RegionKind, Rgba};

fn partitions(img: &ParsedImage, len: usize) -> bool {
    let rs = &img.regions;
    let mut at = 0usize;
    for r in rs {
        if r.start != at || r.end <= r.start {
            return false;
        }
        at = r.end;
    }
    at == len
}

#[test]
fn jpeg_regions_partition_the_file() {
    for jpg in [
        fixtures::jpeg_baseline(16, 16),
        fixtures::jpeg_dual_dqt(),
        fixtures::jpeg_dual_dht(),
        fixtures::jpeg_ycbcr(),
        fixtures::jpeg_exif_le(),
        fixtures::jpeg_exif_be(),
        fixtures::jpeg_exif_bad_offset(),
        vec![0xFF, 0xD8, 0xFF, 0xFF, 0xFF],
        vec![0xFF, 0xD8, 0x12, 0x34],
        vec![0xFF, 0xD8, 0xFF, 0xE0, 0x00],
    ] {
        let img = parse_auto(&jpg).unwrap();
        assert!(partitions(&img, jpg.len()), "{:?}", img.regions);
        for off in 0..jpg.len() {
            assert!(img.region_at(off).is_some());
        }
    }
}

#[test]
fn jpeg_trailing_bytes_after_eoi_form_a_region() {
    let mut jpg = fixtures::jpeg_dual_dht();
    jpg.extend_from_slice(&[1, 2, 3]);
    let img = parse_auto(&jpg).unwrap();
    let last = img.regions.last().unwrap();
    assert_eq!(last.name, "Trailing data (after EOI)");
    assert_eq!((last.start, last.end), (jpg.len() - 3, jpg.len()));
}

#[test]
fn netpbm_regions_partition_the_file() {
    let mut ppm = fixtures::demo_ppm();
    let img = parse_auto(&ppm).unwrap();
    assert!(partitions(&img, ppm.len()));
    ppm.extend_from_slice(b"extra");
    let img = parse_auto(&ppm).unwrap();
    assert!(partitions(&img, ppm.len()));
    assert_eq!(img.regions.last().unwrap().name, "Trailing data");
}

#[test]
fn bmp_regions_are_sorted_and_disjoint() {
    for bmp in [fixtures::demo_indexed(), fixtures::demo_1bpp(), fixtures::demo_4bpp(), fixtures::demo_24bpp()] {
        let img = parse_auto(&bmp).unwrap();
        for pair in img.regions.windows(2) {
            assert!(pair[0].end <= pair[1].start);
        }
    }
}

#[test]
fn bmp_pixel_data_declared_inside_the_headers_starts_after_them() {
    // bfOffBits = 20 points into the info header, and bfOffBits = 0 at the
    // file header. No color table fits before bfOffBits, and the 16 declared
    // pixel bytes lie within the headers, so no pixel region is shown; what
    // follows the headers is trailing data, and no region overlaps another.
    for off in [20u8, 0] {
        let mut bmp = fixtures::demo_indexed();
        bmp[10] = off;
        bmp[11] = 0;
        let img = parse_auto(&bmp).unwrap();
        for pair in img.regions.windows(2) {
            assert!(pair[0].end <= pair[1].start, "{off}: {:?}", pair);
        }
        assert!(img.regions.iter().all(|r| r.kind != RegionKind::PixelData && r.kind != RegionKind::Palette));
        let last = img.regions.last().unwrap();
        assert_eq!((last.kind, last.start, last.end), (RegionKind::Unknown, 54, bmp.len()));
        assert_eq!(img.pixel_info.unwrap().data_start, off as usize);
    }
}

#[test]
fn fields_are_sorted_by_start() {
    for bytes in [
        fixtures::jpeg_exif_le(),
        fixtures::jpeg_baseline(8, 8),
        fixtures::demo_indexed(),
        fixtures::demo_ppm(),
    ] {
        let img = parse_auto(&bytes).unwrap();
        for pair in img.fields.windows(2) {
            assert!(pair[0].start <= pair[1].start);
        }
    }
}

#[test]
fn jumping_to_a_pixel_locates_it_again() {
    let palette = [Rgba::rgb(0, 0, 0), Rgba::rgb(255, 255, 255)];
    let images = [
        fixtures::demo_indexed(),
        fixtures::demo_1bpp(),
        fixtures::demo_4bpp(),
        fixtures::demo_24bpp(),
        fixtures::indexed_1bpp(9, 2, &palette, &[1, 0, 1, 0, 1, 0, 1, 0, 1, 0, 1, 0, 1, 0, 1, 0, 1, 0]),
    ];
    for bytes in images {
        let img = parse_auto(&bytes).unwrap();
        let pi = img.pixel_info.unwrap();
        for y in 0..pi.height {
            for x in 0..pi.width {
                let off = pi.byte_offset_of(x, y).unwrap();
                let loc = pi.locate(off, &bytes, &img.palette).unwrap();
                assert_eq!(loc.y, y);
                match pi.encoding {
                    PixelEncoding::Indexed { bits } => {
                        let per_byte = 8 / bits as u32;
                        assert!(loc.x <= x && x < loc.x + per_byte);
                    },
                    _ => assert_eq!(loc.x, x),
                }
            }
        }
    }
}

#[test]
fn top_down_rows_locate_in_order() {
    let pi = PixelInfo {
        data_start: 4,
        width: 3,
        height: 2,
        top_down: true,
        row_stride: 12,
        encoding: PixelEncoding::RgbDirect { bytes: 3 },
    };
    let raw = vec![0u8; 40];
    assert_eq!(pi.byte_offset_of(2, 1), Some(4 + 12 + 6));
    let loc = pi.locate(4 + 12 + 6, &raw, &[]).unwrap();
    assert_eq!((loc.x, loc.y), (2, 1));
}

#[test]
fn overwriting_twice_changes_nothing_more() {
    let mut bytes = fixtures::demo_ppm();
    let before = bytes.clone();
    assert!(overwrite_byte(&mut bytes, 20, 0x5A) || before[20] == 0x5A);
    let once = bytes.clone();
    assert!(!overwrite_byte(&mut bytes, 20, 0x5A));
    assert_eq!(bytes, once);
    assert_eq!(bytes.len(), before.len());
    for (i, (a, b)) in before.iter().zip(bytes.iter()).enumerate() {
        if i != 20 {
            assert_eq!(a, b);
        }
    }
}

#[test]
fn each_fixture_is_recognized_by_exactly_one_format() {
    let files = [
        fixtures::demo_indexed(),
        fixtures::demo_ppm(),
        fixtures::netpbm_p5(1, 1, &[7]),
        fixtures::demo_jpeg(),
    ];
    let names = ["BMP", "Netpbm", "Netpbm", "JPEG"];
    for (bytes, name) in files.iter().zip(names) {
        let recognizers: Vec<_> = registry().into_iter().filter(|f| f.detect(bytes)).collect();
        assert_eq!(recognizers.len(), 1);
        assert_eq!(recognizers[0].name(), name);
        assert_eq!(parse_auto(bytes).unwrap().format_name, name);
    }
}

#[test]
fn built_bitmaps_read_back_their_pixels() {
    let palette = [Rgba::rgb(10, 20, 30), Rgba::rgb(200, 100, 50), Rgba::rgb(1, 2, 3)];
    let indices = [2u8, 0, 1, 1, 0, 2];
    let bytes = fixtures::indexed_8bpp(3, 2, &palette, &indices);
    let img = parse_auto(&bytes).unwrap();
    let pi = img.pixel_info.unwrap();
    for y in 0..2u32 {
        for x in 0..3u32 {
            let want = palette[indices[(y * 3 + x) as usize] as usize];
            assert_eq!(pi.color_at(x, y, &bytes, &img.palette), Some(want));
        }
    }

    let palette16: Vec<Rgba> = (0..16u8).map(|i| Rgba::rgb(i * 16, 255 - i, i)).collect();
    let indices = [3u8, 0x1F, 15, 0, 7, 0xA2, 9];
    let bytes = fixtures::indexed_4bpp(7, 1, &palette16, &indices);
    let img = parse_auto(&bytes).unwrap();
    let pi = img.pixel_info.unwrap();
    for x in 0..7u32 {
        let want = palette16[(indices[x as usize] & 0x0F) as usize];
        assert_eq!(pi.color_at(x, 0, &bytes, &img.palette), Some(want));
    }

    let two = [Rgba::rgb(0, 0, 0), Rgba::rgb(255, 255, 255)];
    let indices = [0u8, 1, 2, 0, 0, 9, 1, 0, 1, 0, 0, 1];
    let bytes = fixtures::indexed_1bpp(6, 2, &two, &indices);
    let img = parse_auto(&bytes).unwrap();
    let pi = img.pixel_info.unwrap();
    for y in 0..2u32 {
        for x in 0..6u32 {
            let want = two[(indices[(y * 6 + x) as usize] != 0) as usize];
            assert_eq!(pi.color_at(x, y, &bytes, &img.palette), Some(want));
        }
    }

    let pixels = [
        Rgba::rgb(1, 2, 3),
        Rgba::rgb(4, 5, 6),
        Rgba::rgb(7, 8, 9),
        Rgba::rgb(250, 128, 0),
    ];
    let bytes = fixtures::bgr_24bpp(2, 2, &pixels);
    let img = parse_auto(&bytes).unwrap();
    let pi = img.pixel_info.unwrap();
    assert_eq!(pi.row_stride, 8);
    for y in 0..2u32 {
        for x in 0..2u32 {
            assert_eq!(pi.color_at(x, y, &bytes, &img.palette), Some(pixels[(y * 2 + x) as usize]));
        }
    }
}

#[test]
fn built_netpbm_images_read_back_their_pixels() {
    let pixels = [
        Rgba::rgb(9, 8, 7),
        Rgba::rgb(6, 5, 4),
        Rgba::rgb(3, 2, 1),
        Rgba::rgb(0, 128, 255),
        Rgba::rgb(17, 34, 51),
        Rgba::rgb(68, 85, 102),
    ];
    let bytes = fixtures::netpbm_p6(3, 2, &pixels);
    let img = parse_auto(&bytes).unwrap();
    let pi = img.pixel_info.unwrap();
    assert_eq!(pi.data_start, b"P6\n3 2\n255\n".len());
    assert_eq!(pi.row_stride, 9);
    assert!(pi.top_down);
    for y in 0..2u32 {
        for x in 0..3u32 {
            assert_eq!(pi.color_at(x, y, &bytes, &img.palette), Some(pixels[(y * 3 + x) as usize]));
        }
    }

    let gray = [0u8, 50, 100, 150, 200, 250, 12, 34, 56, 78];
    let bytes = fixtures::netpbm_p5(5, 2, &gray);
    let img = parse_auto(&bytes).unwrap();
    let pi = img.pixel_info.unwrap();
    assert_eq!(pi.data_start, b"P5\n5 2\n255\n".len());
    for y in 0..2u32 {
        for x in 0..5u32 {
            let g = gray[(y * 5 + x) as usize];
            assert_eq!(pi.color_at(x, y, &bytes, &img.palette), Some(Rgba::rgba(g, g, g, 255)));
        }
    }
}

#[test]
fn legend_lists_each_region_kind_once_in_file_order() {
    let img = parse_auto(&fixtures::demo_indexed()).unwrap();
    assert_eq!(
        img.legend_kinds(),
        vec![RegionKind::FileHeader, RegionKind::InfoHeader, RegionKind::Palette, RegionKind::PixelData]
    );
    let jpg = parse_auto(&fixtures::demo_jpeg()).unwrap();
    let kinds = jpg.legend_kinds();
    for (i, k) in kinds.iter().enumerate() {
        assert!(!kinds[..i].contains(k));
    }
    for r in &jpg.regions {
        assert!(kinds.contains(&r.kind));
    }
}

#[test]
fn a_pixels_byte_lists_the_pixel_with_its_color() {
    let images = [
        fixtures::demo_indexed(),
        fixtures::demo_1bpp(),
        fixtures::demo_4bpp(),
        fixtures::demo_24bpp(),
        fixtures::demo_ppm(),
    ];
    for bytes in images {
        let img = parse_auto(&bytes).unwrap();
        let pi = img.pixel_info.unwrap();
        for y in 0..pi.height {
            for x in 0..pi.width {
                let off = pi.byte_offset_of(x, y).unwrap();
                let samples = pi.samples(off, &bytes, &img.palette);
                let hit = samples.iter().find(|s| s.x == x && s.y == y).unwrap();
                assert_eq!(hit.color, pi.color_at(x, y, &bytes, &img.palette));
            }
        }
    }
}

#[test]
fn writing_the_old_byte_back_undoes_an_overwrite() {
    let original = fixtures::demo_indexed();
    let mut bytes = original.clone();
    let old = bytes[30];
    assert!(overwrite_byte(&mut bytes, 30, old ^ 0xFF));
    assert_ne!(bytes, original);
    assert!(overwrite_byte(&mut bytes, 30, old));
    assert_eq!(bytes, original);
}

#[test]
fn jpeg_fields_do_not_overlap_without_exif() {
    for jpg in [
        fixtures::jpeg_baseline(16, 16),
        fixtures::jpeg_baseline(640, 480),
        fixtures::jpeg_dual_dqt(),
        fixtures::jpeg_dual_dht(),
        fixtures::jpeg_ycbcr(),
    ] {
        let img = parse_auto(&jpg).unwrap();
        for w in img.fields.windows(2) {
            assert!(w[0].start <= w[0].end && w[0].end <= w[1].start);
        }
    }
}

#[test]
fn exif_value_offsets_can_point_back_into_their_block() {
    // APP1 Exif: little-endian TIFF whose one entry (Make, ASCII, 8 bytes)
    // keeps its value at offset 0, over the TIFF header itself.
    let mut tiff = vec![b'I', b'I', 42, 0, 8, 0, 0, 0];
    tiff.extend_from_slice(&[1, 0]);
    tiff.extend_from_slice(&[0x0F, 0x01, 2, 0, 8, 0, 0, 0, 0, 0, 0, 0]);
    tiff.extend_from_slice(&[0, 0, 0, 0]);
    let mut payload = b"Exif\0\0".to_vec();
    payload.extend_from_slice(&tiff);
    let seg_len = (payload.len() + 2) as u16;
    let mut jpg = vec![0xFF, 0xD8, 0xFF, 0xE1];
    jpg.extend_from_slice(&seg_len.to_be_bytes());
    jpg.extend_from_slice(&payload);
    jpg.extend_from_slice(&[0xFF, 0xD9]);
    let img = parse_auto(&jpg).unwrap();
    let overlapping = img.fields.windows(2).any(|w| w[0].end > w[1].start);
    assert!(overlapping);
}

#[test]
fn truncated_large_header_bmp_regions_do_not_overlap() {
    // A BITMAPV5HEADER (124 bytes) cut off after 60 bytes, pixel data
    // declared far past the end of the file.
    let mut bytes = fixtures::demo_indexed()[..60].to_vec();
    bytes[10..14].copy_from_slice(&5000u32.to_le_bytes());
    bytes[14..18].copy_from_slice(&124u32.to_le_bytes());
    let img = parse_auto(&bytes).unwrap();
    assert!(img.regions.len() >= 2);
    for w in img.regions.windows(2) {
        assert!(w[0].end <= w[1].start);
    }
}

#[test]
fn find_next_gives_the_least_match_at_or_after_from_else_wraps() {
    let hay = b"BMxxBMyyBM";
    assert_eq!(find_all(hay, b"BM"), vec![0, 4, 8]);
    assert_eq!(find_next(hay, b"BM", 0), Some(0));
    assert_eq!(find_next(hay, b"BM", 1), Some(4));
    assert_eq!(find_next(hay, b"BM", 5), Some(8));
    assert_eq!(find_next(hay, b"BM", 9), Some(0));
    assert_eq!(find_next(hay, b"QQ", 3), None);
}

#[test]
fn every_sample_of_a_byte_is_a_pixel_with_its_color() {
    for bytes in [fixtures::demo_1bpp(), fixtures::demo_4bpp(), fixtures::demo_indexed(), fixtures::demo_24bpp()] {
        let img = parse_auto(&bytes).unwrap();
        let pi = img.pixel_info.unwrap();
        for off in 0..bytes.len() {
            let samples = pi.samples(off, &bytes, &img.palette);
            for (k, s) in samples.iter().enumerate() {
                assert!(s.x < pi.width && s.y < pi.height);
                assert_eq!(s.color, pi.color_at(s.x, s.y, &bytes, &img.palette));
                let o = pi.byte_offset_of(s.x, s.y).unwrap();
                match pi.encoding {
                    PixelEncoding::Indexed { .. } => {
                        assert_eq!(o, off);
                        assert_eq!(s.x, samples[0].x + k as u32);
                    },
                    _ => assert!(o <= off && off < o + pi.encoding.bytes_per_pixel().unwrap()),
                }
            }
        }
    }
}

#[test]
fn unrecognized_bytes_and_only_those_are_not_recognized() {
    assert!(matches!(parse_auto(b"not an image"), Err(ParseError::NotRecognized)));
    let mut bytes = fixtures::demo_indexed();
    bytes[0] = 0;
    assert!(matches!(parse_auto(&bytes), Err(ParseError::NotRecognized)));
    assert!(!matches!(parse_auto(b"BM"), Err(ParseError::NotRecognized)));
    assert!(!matches!(parse_auto(b"P6"), Err(ParseError::NotRecognized)));
}

#[test]
fn counting_needs_each_value_to_fit_a_u32_bucket() {
    let bytes = [1u8, 1, 2, 255];
    assert!(counts_fit(&bytes));
    let c = byte_counts(&bytes).unwrap();
    assert_eq!(c.histogram[1], 2);
    assert_eq!(c.most_common, 1);
    assert!(counts_fit(&[]));
}

#[test]
fn bmp_pixel_data_starting_inside_the_headers_is_shown_after_them() {
    // bfOffBits = 40 lies inside the info header [14, 54), which leaves no
    // room for a color table; the 16 declared pixel bytes [40, 56) are shown
    // from the end of the headers on, trailing data after them.
    let mut bmp = fixtures::demo_indexed();
    bmp[10] = 40;
    let img = parse_auto(&bmp).unwrap();
    for pair in img.regions.windows(2) {
        assert!(pair[0].end <= pair[1].start);
    }
    let pixels = img.regions.iter().find(|r| r.kind == RegionKind::PixelData).unwrap();
    assert_eq!((pixels.start, pixels.end), (54, 56));
    let last = img.regions.last().unwrap();
    assert_eq!((last.kind, last.start, last.end), (RegionKind::Unknown, 56, bmp.len()));
    assert_eq!(img.pixel_info.unwrap().data_start, 40);
}
