//! Crate-level checks: format detection, colors and regions.

use imghex_core::format::{registry, ImageFormat};
use imghex_core::{fixtures, parse_auto, ParseError, Region, RegionKind, Rgba};

#[test]
fn detects_bmp_magic() {
    let bmp = fixtures::demo_indexed();
    assert!(registry()[0].detect(&bmp));
    assert!(!registry()[0].detect(b"\x89PNG"));
}

#[test]
fn rejects_non_bmp() {
    assert_eq!(parse_auto(b"not an image").unwrap_err(), ParseError::NotRecognized);
}

#[test]
fn rgba_hex_formatting() {
    assert_eq!(Rgba::rgb(0xFF, 0x00, 0x80).to_hex(), "#FF0080");
    assert_eq!(Rgba::rgba(0x10, 0x20, 0x30, 0x40).to_hex(), "#10203040");
}

#[test]
fn region_contains_is_half_open() {
    let r = Region::new(4, 8, RegionKind::Palette, "p");
    assert!(!r.contains(3));
    assert!(r.contains(4));
    assert!(r.contains(7));
    assert!(!r.contains(8));
    assert_eq!(r.len(), 4);
}
